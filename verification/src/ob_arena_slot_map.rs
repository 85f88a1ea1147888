//! A book whose orders live in an arena of fixed-size slot map chunks; each
//! price level owns a list of chunks and new orders go to its last chunk.
use vstd::prelude::*;

use std::collections::BTreeMap;

use crate::slot_map::optimized::SlotMapOptimized;
use crate::matching::{
    eligible_queue, fill_amounts, fill_count, fill_left, fill_take, flatten, lemma_eligible_prefix,
    lemma_fill_snoc, lemma_fill_split, lemma_fill_zero, lemma_flatten_snoc, lemma_flatten_split,
    lemma_queue_contains, lemma_queue_snoc, lemma_queue_take, lemma_sorted_keys_is, levels_upto,
    queue_of, side_queue, total,
};
use crate::ob_standard::{key_of, price_of};
use crate::sorted_keys::{first_key_u64, keys_upto_u64, last_key_u64};
use crate::slot_map::{slot_values, SlotMap};
use crate::book_match::{book_cleaned, book_filled, lemma_cancel_head, lemma_queue_member, lemma_sweep_compose};
use crate::{
    book_amounts, book_key, book_reach, LimitOrder, LimitOrderRequest, OrderBookExt, OrderMatcherExt, OrderSide,
};

verus! {

broadcast use vstd::std_specs::btree::group_btree_axioms;

/// An arena of slot map chunks, some of them free to be claimed.
pub struct SlotArena<T> {
    pub chunks: Vec<SlotMapOptimized<T>>,
    pub free_chunks: Vec<usize>,
    pub chunk_count: usize,
    pub chunk_size: usize,
}

/// Where a value lives in an arena: a chunk and a slot of it.
#[derive(Clone, Copy, Debug, PartialEq, Eq, Structural)]
pub struct ArenaId {
    pub chunk_id: u16,
    pub slot_id: u16,
}

impl ArenaId {
    pub fn new(chunk_id: u16, slot_id: u16) -> (id: Self)
        ensures
            id.chunk_id == chunk_id,
            id.slot_id == slot_id,
    {
        Self { chunk_id, slot_id }
    }
}

/// A chunk is full when it has no free slot and holds `chunk_size` slots.
pub open spec fn chunk_full<T>(ch: SlotMapOptimized<T>, chunk_size: usize) -> bool {
    ch.free_list().len() == 0 && ch.total_spec() >= chunk_size
}

impl<T> SlotArena<T> {
    /// Every chunk is a well formed slot map and the free chunks are distinct
    /// chunks of the arena.
    pub open spec fn wf(&self) -> bool {
        &&& self.chunk_count == self.chunks@.len()
        &&& forall|c: int| 0 <= c < self.chunks@.len() ==> (#[trigger] self.chunks@[c]).wf()
        &&& self.free_chunks@.no_duplicates()
        &&& forall|t: int| 0 <= t < self.free_chunks@.len() ==> #[trigger] self.free_chunks@[t] < self.chunks@.len()
    }

    /// The value at `id`, if its chunk exists and the slot is occupied.
    pub open spec fn data_at(&self, id: ArenaId) -> Option<T> {
        if (id.chunk_id as int) < self.chunks@.len() {
            self.chunks@[id.chunk_id as int].data_at(id.slot_id as int)
        } else {
            None
        }
    }

    /// An arena of `chunk_count` empty chunks, all free, each with room
    /// reserved for `chunk_size` slots.
    pub fn with_capacity(chunk_count: usize, chunk_size: usize) -> (arena: Self)
        ensures
            arena.wf(),
            arena.chunk_size == chunk_size,
            arena.chunks@.len() == chunk_count,
            forall|c: int|
                0 <= c < chunk_count ==> {
                    &&& (#[trigger] arena.chunks@[c]).order() == Seq::<int>::empty()
                    &&& arena.chunks@[c].free_list() == Seq::<int>::empty()
                    &&& arena.chunks@[c].total_spec() == 0
                },
            arena.free_chunks@ == Seq::new(chunk_count as nat, |i: int| i as usize),
    {
        let mut chunks: Vec<SlotMapOptimized<T>> = Vec::new();
        let mut free_chunks: Vec<usize> = Vec::new();
        let mut i: usize = 0;
        while i < chunk_count
            invariant
                0 <= i <= chunk_count,
                chunks@.len() == i,
                free_chunks@ == Seq::new(i as nat, |j: int| j as usize),
                forall|c: int|
                    0 <= c < i ==> {
                        &&& (#[trigger] chunks@[c]).wf()
                        &&& chunks@[c].order() == Seq::<int>::empty()
                        &&& chunks@[c].free_list() == Seq::<int>::empty()
                        &&& chunks@[c].total_spec() == 0
                    },
            decreases chunk_count - i,
        {
            chunks.push(SlotMapOptimized::with_capacity(chunk_size));
            free_chunks.push(i);
            proof {
                assert(free_chunks@ =~= Seq::new((i + 1) as nat, |j: int| j as usize));
            }
            i = i + 1;
        }
        Self { chunks, free_chunks, chunk_count, chunk_size }
    }

    /// Takes the free chunk released or listed last.
    pub fn claim(&mut self) -> (chunk: usize)
        requires
            old(self).free_chunks@.len() > 0,
        ensures
            chunk == old(self).free_chunks@.last(),
            final(self).free_chunks@ == old(self).free_chunks@.drop_last(),
            final(self).chunks == old(self).chunks,
            final(self).chunk_count == old(self).chunk_count,
            final(self).chunk_size == old(self).chunk_size,
            old(self).wf() ==> final(self).wf(),
    {
        let chunk = self.free_chunks.pop().unwrap();
        proof {
            if old(self).wf() {
                let f = self.free_chunks@;
                assert forall|t: int| 0 <= t < f.len() implies #[trigger] f[t] < self.chunks@.len() by {
                    assert(f[t] == old(self).free_chunks@[t]);
                }
            }
        }
        chunk
    }

    /// Hands the chunk `chunk_index` back to the free chunks.
    pub fn release(&mut self, chunk_index: usize)
        ensures
            final(self).free_chunks@ == old(self).free_chunks@.push(chunk_index),
            final(self).chunks == old(self).chunks,
            final(self).chunk_count == old(self).chunk_count,
            final(self).chunk_size == old(self).chunk_size,
            old(self).wf() && chunk_index < old(self).chunks@.len() && !old(self).free_chunks@.contains(chunk_index)
                ==> final(self).wf(),
    {
        self.free_chunks.push(chunk_index);
        proof {
            if old(self).wf() && chunk_index < old(self).chunks@.len() && !old(self).free_chunks@.contains(chunk_index) {
                let f = self.free_chunks@;
                assert forall|a: int, b: int| 0 <= a < f.len() && 0 <= b < f.len() && a != b implies f[a] != f[b] by {
                    if b == f.len() - 1 {
                        assert(old(self).free_chunks@.contains(f[a]) || a == b);
                    } else if a == f.len() - 1 {
                        assert(old(self).free_chunks@.contains(f[b]));
                    }
                }
            }
        }
    }

    /// The value at `arena_id`; the slot of an existing chunk is read
    /// without a bounds check.
    pub fn get(&self, arena_id: ArenaId) -> (r: Option<&T>)
        requires
            self.wf(),
            (arena_id.chunk_id as int) < self.chunks@.len() ==> (arena_id.slot_id as int) < self.chunks@[arena_id.chunk_id as int].total_spec(),
        ensures
            r is Some == self.data_at(arena_id) is Some,
            r is Some ==> *r->0 == self.data_at(arena_id)->0,
    {
        let c = arena_id.chunk_id as usize;
        if c < self.chunks.len() {
            self.chunks[c].get(arena_id.slot_id as usize)
        } else {
            None
        }
    }

    /// The value at `arena_id`, which must be occupied.
    pub fn get_unchecked(&self, arena_id: ArenaId) -> (r: &T)
        requires
            self.wf(),
            self.data_at(arena_id) is Some,
        ensures
            *r == self.data_at(arena_id)->0,
    {
        self.chunks[arena_id.chunk_id as usize].get_occupied_unchecked(arena_id.slot_id as usize)
    }

    /// A mutable reference to the value at `arena_id`, which must be occupied.
    pub fn get_unchecked_mut(&mut self, arena_id: ArenaId) -> (r: &mut T)
        requires
            old(self).wf(),
            old(self).data_at(arena_id) is Some,
        ensures
            *r == old(self).data_at(arena_id)->0,
            final(self).wf(),
            final(self).free_chunks == old(self).free_chunks,
            final(self).chunk_size == old(self).chunk_size,
            final(self).chunks@.len() == old(self).chunks@.len(),
            forall|c: int| 0 <= c < old(self).chunks@.len() && c != arena_id.chunk_id ==> #[trigger] final(self).chunks@[c] == old(self).chunks@[c],
            ({
                let c = arena_id.chunk_id as int;
                let ch0 = old(self).chunks@[c];
                let ch1 = final(self).chunks@[c];
                &&& ch1.order() == ch0.order()
                &&& ch1.free_list() == ch0.free_list()
                &&& ch1.total_spec() == ch0.total_spec()
                &&& ch1.data_at(arena_id.slot_id as int) == Some(*final(r))
                &&& forall|j: int| j != arena_id.slot_id ==> #[trigger] ch1.data_at(j) == ch0.data_at(j)
            }),
    {
        let c = arena_id.chunk_id as usize;
        let chunk = vec_index_mut(&mut self.chunks, c);
        chunk.get_occupied_unchecked_mut(arena_id.slot_id as usize)
    }
}

/// A price level: its price and the chunks holding its orders, oldest first.
pub struct PriceLevel {
    pub price: u64,
    pub chunk_ids: Vec<usize>,
}

/// The index of the value at `id`: its chunk times 65536 plus its slot.
pub open spec fn arena_index(id: ArenaId) -> int {
    id.chunk_id as int * 65536 + id.slot_id as int
}

/// The indices of the values of chunk `c`, in insertion order.
pub open spec fn chunk_seq<T>(ch: SlotMapOptimized<T>, c: int) -> Seq<int> {
    ch.order().map_values(|s: int| c * 65536 + s)
}

/// The per-chunk index sequences of the chunks `cs` of `chunks`.
pub open spec fn chunk_seqs<T>(chunks: Seq<SlotMapOptimized<T>>, cs: Seq<usize>) -> Seq<Seq<int>> {
    cs.map_values(|c: usize| chunk_seq(chunks[c as int], c as int))
}

/// The indices of the values held by the chunks `cs`, chunk after chunk.
pub open spec fn level_seq<T>(chunks: Seq<SlotMapOptimized<T>>, cs: Seq<usize>) -> Seq<int> {
    flatten(chunk_seqs(chunks, cs))
}

/// The chunks `cs` are distinct chunks of `arena`.
pub open spec fn chunks_ok<T>(arena: SlotArena<T>, cs: Seq<usize>) -> bool {
    &&& cs.no_duplicates()
    &&& forall|t: int| 0 <= t < cs.len() ==> #[trigger] cs[t] < arena.chunks@.len()
}

/// Freeing slot `slot`, at position `k` of chunk `c`, which is at position
/// `p` of the level's chunks `cs0` (and dropping the chunk from the level when
/// it empties) takes that one index out of the level's sequence.
#[verifier::rlimit(40)]
proof fn lemma_chunk_removed<T>(
    chunks0: Seq<SlotMapOptimized<T>>,
    chunks1: Seq<SlotMapOptimized<T>>,
    cs0: Seq<usize>,
    cs1: Seq<usize>,
    c: int,
    slot: int,
    p: int,
    k: int,
    emptied: bool,
)
    requires
        chunks1.len() == chunks0.len(),
        forall|j: int| 0 <= j < chunks0.len() && j != c ==> #[trigger] chunks1[j] == chunks0[j],
        cs0.no_duplicates(),
        forall|t: int| 0 <= t < cs0.len() ==> #[trigger] cs0[t] < chunks0.len(),
        0 <= p < cs0.len(),
        cs0[p] == c,
        0 <= k < chunks0[c].order().len(),
        chunks0[c].order()[k] == slot,
        chunks1[c].order() == chunks0[c].order().remove(k),
        emptied == (chunks1[c].order().len() == 0),
        cs1 == (if emptied { cs0.remove(p) } else { cs0 }),
    ensures
        cs1.no_duplicates(),
        forall|t: int| 0 <= t < cs1.len() ==> #[trigger] cs1[t] < chunks1.len(),
        forall|u: usize| #[trigger] cs1.contains(u) <==> (cs0.contains(u) && !(emptied && u as int == c)),
        exists|t: int|
            0 <= t < level_seq(chunks0, cs0).len() && level_seq(chunks0, cs0)[t] == c * 65536 + slot
                && level_seq(chunks1, cs1) == level_seq(chunks0, cs0).remove(t),
{
    let m0 = chunk_seqs(chunks0, cs0);
    assert forall|t: int| 0 <= t < cs0.len() && t != p implies #[trigger] chunk_seqs(chunks1, cs0)[t] == m0[t] by {
        assert(cs0[t] != cs0[p]);
    }
    lemma_flatten_split(m0, p);
    let off = flatten(m0.take(p)).len();
    let t = off + k;
    let x = c * 65536 + slot;
    assert(m0[p] == chunk_seq(chunks0[c], c));
    assert(m0[p][k] == x);
    assert(level_seq(chunks0, cs0)[t] == x);
    let m1 = chunk_seqs(chunks1, cs0);
    assert(chunk_seq(chunks1[c], c) =~= m0[p].remove(k));
    assert(m1 =~= m0.update(p, m0[p].remove(k)));
    lemma_flatten_split(m1, p);
    assert(m1.take(p) =~= m0.take(p));
    assert(m1.skip(p + 1) =~= m0.skip(p + 1));
    assert(flatten(m1) =~= flatten(m0).remove(t));
    if emptied {
        assert(chunk_seqs(chunks1, cs1) =~= m1.take(p) + m1.skip(p + 1));
        crate::matching::lemma_flatten_append(m1.take(p), m1.skip(p + 1));
        assert(m1[p] =~= Seq::<int>::empty());
        assert(level_seq(chunks1, cs1) =~= flatten(m0).remove(t));
        assert forall|a: int, b: int| 0 <= a < cs1.len() && 0 <= b < cs1.len() && a != b implies cs1[a] != cs1[b] by {
            let a2 = if a < p { a } else { a + 1 };
            let b2 = if b < p { b } else { b + 1 };
            assert(cs1[a] == cs0[a2]);
            assert(cs1[b] == cs0[b2]);
        }
        assert forall|t2: int| 0 <= t2 < cs1.len() implies #[trigger] cs1[t2] < chunks1.len() by {
            let a2 = if t2 < p { t2 } else { t2 + 1 };
            assert(cs1[t2] == cs0[a2]);
        }
        assert forall|u: usize| #[trigger] cs1.contains(u) <==> (cs0.contains(u) && !(emptied && u as int == c)) by {
            if cs1.contains(u) {
                let a = choose|a: int| 0 <= a < cs1.len() && cs1[a] == u;
                let a2 = if a < p { a } else { a + 1 };
                assert(cs0[a2] == u);
                assert(a2 != p);
            }
            if cs0.contains(u) && u as int != c {
                let b = choose|b: int| 0 <= b < cs0.len() && cs0[b] == u;
                assert(b != p);
                let b1 = if b < p { b } else { b - 1 };
                assert(cs1[b1] == u);
            }
        }
    } else {
        assert(level_seq(chunks1, cs1) =~= flatten(m0).remove(t));
    }
}

impl PriceLevel {
    /// A level at `price` with one chunk claimed from the arena.
    pub fn new<T>(price: u64, order_arena: &mut SlotArena<T>) -> (level: Self)
        requires
            old(order_arena).free_chunks@.len() > 0,
        ensures
            level.price == price,
            level.chunk_ids@ == seq![old(order_arena).free_chunks@.last()],
            final(order_arena).free_chunks@ == old(order_arena).free_chunks@.drop_last(),
            final(order_arena).chunks == old(order_arena).chunks,
            final(order_arena).chunk_count == old(order_arena).chunk_count,
            final(order_arena).chunk_size == old(order_arena).chunk_size,
            old(order_arena).wf() ==> final(order_arena).wf(),
    {
        let chunk = order_arena.claim();
        let mut chunk_ids = Vec::new();
        chunk_ids.push(chunk);
        proof {
            assert(chunk_ids@ =~= seq![chunk]);
        }
        Self { price, chunk_ids }
    }

    /// Stores `data` in the last chunk of the level, or, when that chunk is
    /// full, in a chunk claimed from the arena and appended to the level.
    pub fn insert<T>(&mut self, order_arena: &mut SlotArena<T>, data: T) -> (id: ArenaId)
        requires
            old(order_arena).wf(),
            old(order_arena).chunks@.len() <= 65536,
            0 < old(order_arena).chunk_size <= 65536,
            forall|c: int| 0 <= c < old(order_arena).chunks@.len() ==> (#[trigger] old(order_arena).chunks@[c]).total_spec() <= old(order_arena).chunk_size,
            old(self).chunk_ids@.len() > 0,
            chunks_ok(*old(order_arena), old(self).chunk_ids@),
            chunk_full(old(order_arena).chunks@[old(self).chunk_ids@.last() as int], old(order_arena).chunk_size) ==> {
                let f = old(order_arena).free_chunks@;
                &&& f.len() > 0
                &&& !old(self).chunk_ids@.contains(f.last())
                &&& old(order_arena).chunks@[f.last() as int].order().len() == 0
            },
        ensures
            ({
                let a0 = *old(order_arena);
                let a1 = *final(order_arena);
                let claimed = chunk_full(a0.chunks@[old(self).chunk_ids@.last() as int], a0.chunk_size);
                let c = id.chunk_id as int;
                &&& final(self).price == old(self).price
                &&& final(self).chunk_ids@ == (if claimed {
                    old(self).chunk_ids@.push(a0.free_chunks@.last())
                } else {
                    old(self).chunk_ids@
                })
                &&& a1.free_chunks@ == (if claimed {
                    a0.free_chunks@.drop_last()
                } else {
                    a0.free_chunks@
                })
                &&& c == final(self).chunk_ids@.last()
                &&& a1.wf()
                &&& a1.chunk_size == a0.chunk_size
                &&& a1.chunks@.len() == a0.chunks@.len()
                &&& forall|j: int| 0 <= j < a0.chunks@.len() && j != c ==> #[trigger] a1.chunks@[j] == a0.chunks@[j]
                &&& a0.chunks@[c].data_at(id.slot_id as int) is None
                &&& a1.chunks@[c].order() == a0.chunks@[c].order().push(id.slot_id as int)
                &&& a1.chunks@[c].data_at(id.slot_id as int) == Some(data)
                &&& forall|j: int| j != id.slot_id ==> #[trigger] a1.chunks@[c].data_at(j) == a0.chunks@[c].data_at(j)
                &&& a1.chunks@[c].total_spec() <= a1.chunk_size
                &&& chunks_ok(a1, final(self).chunk_ids@)
                &&& level_seq(a1.chunks@, final(self).chunk_ids@) == level_seq(a0.chunks@, old(self).chunk_ids@).push(arena_index(id))
            }),
    {
        let ghost a0 = *order_arena;
        let ghost cs0 = self.chunk_ids@;
        let mut active_chunk_id = self.chunk_ids[self.chunk_ids.len() - 1];
        let full = {
            let active_chunk = &order_arena.chunks[active_chunk_id];
            active_chunk.capacity() == active_chunk.total() && active_chunk.total() >= order_arena.chunk_size
        };
        proof {
            a0.chunks@[active_chunk_id as int].lemma_occupied();
        }
        if full {
            active_chunk_id = order_arena.claim();
            self.chunk_ids.push(active_chunk_id);
        }
        let ghost a_mid = *order_arena;
        let ghost ch0 = a_mid.chunks@[active_chunk_id as int];
        proof {
            ch0.lemma_occupied();
        }
        let active_chunk = vec_index_mut(&mut order_arena.chunks, active_chunk_id);
        let slot = active_chunk.insert(data);
        proof {
            let ch1 = order_arena.chunks@[active_chunk_id as int];
            ch1.lemma_occupied();
            if ch0.free_list().len() > 0 {
                assert(ch0.data_at(ch0.free_list()[0]) is None);
            }
            assert(slot < ch1.total_spec());
            assert(ch1.total_spec() <= a0.chunk_size);
        }
        let id = ArenaId::new(active_chunk_id as u16, slot as u16);
        proof {
            let a1 = *order_arena;
            let cs1 = self.chunk_ids@;
            assert(id.slot_id == slot);
            assert(id.chunk_id as int == active_chunk_id);
            assert forall|c: int| 0 <= c < a1.chunks@.len() implies (#[trigger] a1.chunks@[c]).wf() by {
                if c != active_chunk_id {
                    assert(a1.chunks@[c] == a0.chunks@[c]);
                }
            }
            let x = arena_index(id);
            let ch1 = a1.chunks@[active_chunk_id as int];
            assert(chunk_seq(ch1, active_chunk_id as int) =~= chunk_seq(ch0, active_chunk_id as int).push(x));
            let m0 = chunk_seqs(a0.chunks@, cs0);
            if full {
                assert(!cs0.contains(active_chunk_id));
                assert forall|t: int| 0 <= t < cs0.len() implies #[trigger] chunk_seqs(a1.chunks@, cs0)[t] == m0[t] by {
                    assert(cs0[t] != active_chunk_id);
                }
                assert(chunk_seqs(a1.chunks@, cs0) =~= m0);
                assert(chunk_seq(ch0, active_chunk_id as int) =~= Seq::<int>::empty());
                assert(chunk_seqs(a1.chunks@, cs1) =~= m0.push(seq![x]));
                lemma_flatten_snoc(m0, seq![x]);
                assert(level_seq(a1.chunks@, cs1) =~= level_seq(a0.chunks@, cs0).push(x));
                assert forall|a: int, b: int| 0 <= a < cs1.len() && 0 <= b < cs1.len() && a != b implies cs1[a] != cs1[b] by {
                    if b == cs1.len() - 1 {
                        assert(cs0.contains(cs1[a]) || a == b);
                    } else if a == cs1.len() - 1 {
                        assert(cs0.contains(cs1[b]));
                    }
                }
            } else {
                let p = cs0.len() - 1;
                assert forall|t: int| 0 <= t < p implies #[trigger] chunk_seqs(a1.chunks@, cs0)[t] == m0[t] by {
                    assert(cs0[t] != cs0[p]);
                }
                assert(m0 =~= m0.drop_last().push(m0[p]));
                assert(chunk_seqs(a1.chunks@, cs1) =~= m0.drop_last().push(m0[p].push(x)));
                lemma_flatten_snoc(m0.drop_last(), m0[p]);
                lemma_flatten_snoc(m0.drop_last(), m0[p].push(x));
                assert(level_seq(a1.chunks@, cs1) =~= level_seq(a0.chunks@, cs0).push(x));
            }
        }
        id
    }

    /// Frees the slot of `order_id`; a chunk left empty leaves the level and
    /// goes back to the arena's free chunks.
    pub fn remove<T>(&mut self, order_arena: &mut SlotArena<T>, order_id: ArenaId)
        requires
            old(order_arena).wf(),
            old(order_arena).data_at(order_id) is Some,
            chunks_ok(*old(order_arena), old(self).chunk_ids@),
            old(self).chunk_ids@.contains(order_id.chunk_id as usize),
            !old(order_arena).free_chunks@.contains(order_id.chunk_id as usize),
        ensures
            ({
                let a0 = *old(order_arena);
                let a1 = *final(order_arena);
                let c = order_id.chunk_id as int;
                let emptied = a1.chunks@[c].order().len() == 0;
                &&& final(self).price == old(self).price
                &&& a1.wf()
                &&& a1.chunk_size == a0.chunk_size
                &&& a1.chunks@.len() == a0.chunks@.len()
                &&& forall|j: int| 0 <= j < a0.chunks@.len() && j != c ==> #[trigger] a1.chunks@[j] == a0.chunks@[j]
                &&& a1.chunks@[c].data_at(order_id.slot_id as int) is None
                &&& forall|j: int| j != order_id.slot_id ==> #[trigger] a1.chunks@[c].data_at(j) == a0.chunks@[c].data_at(j)
                &&& a1.chunks@[c].total_spec() == a0.chunks@[c].total_spec()
                &&& a1.chunks@[c].order().len() + 1 == a0.chunks@[c].order().len()
                &&& a1.free_chunks@ == (if emptied { a0.free_chunks@.push(c as usize) } else { a0.free_chunks@ })
                &&& forall|u: usize| #[trigger] final(self).chunk_ids@.contains(u) <==> (old(self).chunk_ids@.contains(u) && !(emptied && u as int == c))
                &&& chunks_ok(a1, final(self).chunk_ids@)
                &&& exists|t: int|
                    0 <= t < level_seq(a0.chunks@, old(self).chunk_ids@).len()
                        && level_seq(a0.chunks@, old(self).chunk_ids@)[t] == arena_index(order_id)
                        && level_seq(a1.chunks@, final(self).chunk_ids@) == level_seq(a0.chunks@, old(self).chunk_ids@).remove(t)
            }),
    {
        let ghost a0 = *order_arena;
        let ghost cs0 = self.chunk_ids@;
        let remove_chunk_id = order_id.chunk_id as usize;
        let ghost ch0 = a0.chunks@[remove_chunk_id as int];
        proof {
            ch0.lemma_occupied();
        }
        let chunk = vec_index_mut(&mut order_arena.chunks, remove_chunk_id);
        chunk.remove(order_id.slot_id as u32);
        let emptied = chunk.capacity() == 0;
        let ghost a_mid = *order_arena;
        let ghost ch1 = a_mid.chunks@[remove_chunk_id as int];
        let ghost k = choose|k: int| 0 <= k < ch0.order().len() && ch0.order()[k] == order_id.slot_id as int;
        proof {
            assert(ch0.order().contains(order_id.slot_id as int));
            assert(ch1.order() == ch0.order().remove(k));
        }
        let ghost p = choose|p: int| 0 <= p < cs0.len() && cs0[p] == remove_chunk_id;
        if emptied {
            let mut kept: Vec<usize> = Vec::new();
            let mut i: usize = 0;
            while i < self.chunk_ids.len()
                invariant
                    self.chunk_ids@ == cs0,
                    0 <= p < cs0.len(),
                    cs0[p] == remove_chunk_id,
                    cs0.no_duplicates(),
                    0 <= i <= cs0.len(),
                    kept@ == (if i <= p { cs0.take(i as int) } else { cs0.take(p) + cs0.subrange(p + 1, i as int) }),
                decreases cs0.len() - i,
            {
                let x = self.chunk_ids[i];
                if x != remove_chunk_id {
                    kept.push(x);
                    proof {
                        assert(i != p);
                        if i < p {
                            assert(kept@ =~= cs0.take(i + 1));
                        } else {
                            assert(kept@ =~= cs0.take(p) + cs0.subrange(p + 1, i + 1));
                        }
                    }
                } else {
                    proof {
                        assert(i == p);
                        assert(kept@ =~= cs0.take(p) + cs0.subrange(p + 1, i + 1));
                    }
                }
                i = i + 1;
            }
            self.chunk_ids = kept;
            order_arena.release(remove_chunk_id);
            proof {
                assert(self.chunk_ids@ =~= cs0.remove(p));
            }
        }
        proof {
            let a1 = *order_arena;
            assert forall|c: int| 0 <= c < a1.chunks@.len() implies (#[trigger] a1.chunks@[c]).wf() by {
                if c != remove_chunk_id {
                    assert(a1.chunks@[c] == a0.chunks@[c]);
                }
            }
            lemma_chunk_removed(a0.chunks@, a1.chunks@, cs0, self.chunk_ids@, remove_chunk_id as int, order_id.slot_id as int, p, k, emptied);
            assert(!a0.free_chunks@.contains(remove_chunk_id));
        }
    }

    /// Whether every chunk of the level is empty.
    pub fn is_empty<T>(&self, order_arena: &SlotArena<T>) -> (r: bool)
        requires
            order_arena.wf(),
            forall|t: int| 0 <= t < self.chunk_ids@.len() ==> #[trigger] self.chunk_ids@[t] < order_arena.chunks@.len(),
        ensures
            r == forall|t: int| 0 <= t < self.chunk_ids@.len() ==> (#[trigger] order_arena.chunks@[self.chunk_ids@[t] as int]).order().len() == 0,
    {
        let mut i: usize = 0;
        while i < self.chunk_ids.len()
            invariant
                order_arena.wf(),
                forall|t: int| 0 <= t < self.chunk_ids@.len() ==> #[trigger] self.chunk_ids@[t] < order_arena.chunks@.len(),
                0 <= i <= self.chunk_ids@.len(),
                forall|t: int| 0 <= t < i ==> (#[trigger] order_arena.chunks@[self.chunk_ids@[t] as int]).order().len() == 0,
            decreases self.chunk_ids@.len() - i,
        {
            let c = self.chunk_ids[i];
            if order_arena.chunks[c].capacity() != 0 {
                return false;
            }
            i = i + 1;
        }
        true
    }
}

/// The arena position that an order index names.
pub open spec fn arena_id_of(i: int) -> ArenaId {
    ArenaId { chunk_id: (i / 65536) as u16, slot_id: (i % 65536) as u16 }
}

/// A level over chunks whose order lists are unchanged is unchanged.
proof fn lemma_level_seq_same<T>(chunks0: Seq<SlotMapOptimized<T>>, chunks1: Seq<SlotMapOptimized<T>>, cs: Seq<usize>)
    requires
        forall|t: int| 0 <= t < cs.len() ==> chunks1[#[trigger] cs[t] as int].order() == chunks0[cs[t] as int].order(),
    ensures
        level_seq(chunks1, cs) == level_seq(chunks0, cs),
{
    assert(chunk_seqs(chunks1, cs) =~= chunk_seqs(chunks0, cs)) by {
        assert forall|t: int| 0 <= t < cs.len() implies chunk_seqs(chunks1, cs)[t] == chunk_seqs(chunks0, cs)[t] by {
            assert(chunks1[cs[t] as int].order() == chunks0[cs[t] as int].order());
        }
    }
}

/// The indices of a level are distinct, and they are exactly the occupied
/// slots of its chunks.
proof fn lemma_level_seq<T>(chunks: Seq<SlotMapOptimized<T>>, cs: Seq<usize>)
    requires
        cs.no_duplicates(),
        chunks.len() <= 65536,
        forall|t: int| 0 <= t < cs.len() ==> #[trigger] cs[t] < chunks.len(),
        forall|c: int| 0 <= c < chunks.len() ==> (#[trigger] chunks[c]).wf() && chunks[c].total_spec() <= 65536,
    ensures
        level_seq(chunks, cs).no_duplicates(),
        forall|i: int| #[trigger] level_seq(chunks, cs).contains(i) <==> {
            &&& 0 <= i < 65536 * 65536
            &&& cs.contains((i / 65536) as usize)
            &&& chunks[i / 65536].data_at(i % 65536) is Some
        },
    decreases cs.len(),
{
    if cs.len() == 0 {
        assert(level_seq(chunks, cs) =~= Seq::<int>::empty()) by {
            assert(chunk_seqs(chunks, cs) =~= Seq::<Seq<int>>::empty());
        }
    } else {
        let init = cs.drop_last();
        let c = cs.last();
        assert(init.no_duplicates()) by {
            assert forall|a: int, b: int| 0 <= a < init.len() && 0 <= b < init.len() && a != b implies init[a] != init[b] by {
                assert(init[a] == cs[a] && init[b] == cs[b]);
            }
        }
        assert forall|t: int| 0 <= t < init.len() implies #[trigger] init[t] < chunks.len() by {
            assert(init[t] == cs[t]);
        }
        lemma_level_seq(chunks, init);
        let ch = chunks[c as int];
        ch.lemma_occupied();
        let cq = chunk_seq(ch, c as int);
        assert(chunk_seqs(chunks, cs) =~= chunk_seqs(chunks, init).push(cq));
        lemma_flatten_snoc(chunk_seqs(chunks, init), cq);
        let l0 = level_seq(chunks, init);
        let l = level_seq(chunks, cs);
        assert(l =~= l0 + cq);
        assert forall|u: int| 0 <= u < cq.len() implies #[trigger] cq[u] / 65536 == c && cq[u] % 65536 == ch.order()[u] by {
            let sl = ch.order()[u];
            assert(0 <= sl < 65536);
            assert(cq[u] == c * 65536 + sl);
        }
        assert(!init.contains(c)) by {
            if init.contains(c) {
                let a = choose|a: int| 0 <= a < init.len() && init[a] == c;
                assert(cs[a] == cs[cs.len() - 1]);
            }
        }
        assert forall|a: int, b: int| 0 <= a < l.len() && 0 <= b < l.len() && a != b implies l[a] != l[b] by {
            if a < l0.len() && b < l0.len() {
                assert(l[a] == l0[a] && l[b] == l0[b]);
            } else if a >= l0.len() && b >= l0.len() {
                assert(l[a] == cq[a - l0.len()] && l[b] == cq[b - l0.len()]);
                assert(ch.order()[a - l0.len()] != ch.order()[b - l0.len()]);
            } else {
                let (x, y) = if a < l0.len() { (a, b) } else { (b, a) };
                assert(l0.contains(l[x])) by {
                    assert(l0[x] == l[x]);
                }
                assert(l[y] == cq[y - l0.len()]);
                if l[x] == l[y] {
                    assert(init.contains((l[x] / 65536) as usize));
                    assert((l[x] / 65536) as usize == c);
                }
            }
        }
        assert forall|i: int| #[trigger] l.contains(i) <==> {
            &&& 0 <= i < 65536 * 65536
            &&& cs.contains((i / 65536) as usize)
            &&& chunks[i / 65536].data_at(i % 65536) is Some
        } by {
            if l.contains(i) {
                let a = choose|a: int| 0 <= a < l.len() && l[a] == i;
                if a < l0.len() {
                    assert(l0[a] == i);
                    assert(l0.contains(i));
                    let b = choose|b: int| 0 <= b < init.len() && init[b] == (i / 65536) as usize;
                    assert(cs[b] == init[b]);
                } else {
                    let u = a - l0.len();
                    assert(cq[u] == i);
                    assert(ch.order().contains(ch.order()[u]));
                    assert(cs[cs.len() - 1] == c);
                }
            }
            if 0 <= i < 65536 * 65536 && cs.contains((i / 65536) as usize) && chunks[i / 65536].data_at(i % 65536) is Some {
                let b = choose|b: int| 0 <= b < cs.len() && cs[b] == (i / 65536) as usize;
                if b < cs.len() - 1 {
                    assert(init[b] == cs[b]);
                    assert(l0.contains(i));
                    let a = choose|a: int| 0 <= a < l0.len() && l0[a] == i;
                    assert(l[a] == i);
                } else {
                    assert(i / 65536 == c);
                    assert(ch.order().contains(i % 65536));
                    let u = choose|u: int| 0 <= u < ch.order().len() && ch.order()[u] == i % 65536;
                    assert(cq[u] == i);
                    assert(l[l0.len() + u] == i);
                }
            }
        }
    }
}

/// The number of occupied slots over all of `chunks`.
pub open spec fn occupied_total<T>(chunks: Seq<SlotMapOptimized<T>>) -> nat
    decreases chunks.len(),
{
    if chunks.len() == 0 {
        0
    } else {
        occupied_total(chunks.drop_last()) + chunks.last().order().len()
    }
}

/// Changing one chunk changes the total by the change of that chunk.
proof fn lemma_occupied_total_update<T>(chunks0: Seq<SlotMapOptimized<T>>, chunks1: Seq<SlotMapOptimized<T>>, c: int)
    requires
        chunks0.len() == chunks1.len(),
        0 <= c < chunks0.len(),
        forall|j: int| 0 <= j < chunks0.len() && j != c ==> #[trigger] chunks1[j] == chunks0[j],
    ensures
        occupied_total(chunks1) + chunks0[c].order().len() == occupied_total(chunks0) + chunks1[c].order().len(),
    decreases chunks0.len(),
{
    let n = chunks0.len();
    if c < n - 1 {
        lemma_occupied_total_update(chunks0.drop_last(), chunks1.drop_last(), c);
        assert(chunks1.last() == chunks0.last());
    } else {
        assert(chunks1.drop_last() =~= chunks0.drop_last());
    }
}

/// Each chunk holding fewer than 65536 values bounds the total.
proof fn lemma_occupied_total_bound<T>(chunks: Seq<SlotMapOptimized<T>>)
    requires
        forall|c: int| 0 <= c < chunks.len() ==> (#[trigger] chunks[c]).order().len() <= 65535,
    ensures
        occupied_total(chunks) <= chunks.len() * 65535,
    decreases chunks.len(),
{
    if chunks.len() > 0 {
        lemma_occupied_total_bound(chunks.drop_last());
        assert(chunks.last() == chunks[chunks.len() - 1]);
    }
}

/// The book: for each side the levels by level key (the price for asks, its
/// complement for bids), and the arena holding every resting order.
pub struct OrderBook {
    pub bids: BTreeMap<u64, PriceLevel>,
    pub asks: BTreeMap<u64, PriceLevel>,
    pub order_arena: SlotArena<LimitOrder<ArenaId>>,
}

/// What a stored order says.
pub open spec fn request_of(o: LimitOrder<ArenaId>) -> LimitOrderRequest {
    LimitOrderRequest { side: o.side, limit: o.limit, amount: o.amount }
}

impl OrderBook {
    /// The levels of a side by key.
    pub closed spec fn side_map(&self, side: OrderSide) -> Map<u64, PriceLevel> {
        match side {
            OrderSide::Bid => self.bids@,
            OrderSide::Ask => self.asks@,
        }
    }

    /// The chunks of the arena.
    pub closed spec fn chunks(&self) -> Seq<SlotMapOptimized<LimitOrder<ArenaId>>> {
        self.order_arena.chunks@
    }

    /// Level `k` of `s` owns distinct, non-empty chunks, none of them free.
    pub closed spec fn level_ok(&self, s: OrderSide, k: u64) -> bool {
        let cs = self.side_map(s)[k].chunk_ids@;
        &&& cs.len() > 0
        &&& chunks_ok(self.order_arena, cs)
        &&& forall|t: int| 0 <= t < cs.len() ==> self.chunks()[#[trigger] cs[t] as int].order().len() > 0
        &&& forall|t: int| 0 <= t < cs.len() ==> !self.order_arena.free_chunks@.contains(#[trigger] cs[t])
    }

    /// No chunk belongs to two levels.
    pub closed spec fn owners_ok(&self) -> bool {
        forall|s1: OrderSide, k1: u64, t1: int, s2: OrderSide, k2: u64, t2: int|
            self.side_map(s1).contains_key(k1) && self.side_map(s2).contains_key(k2) && 0 <= t1
                < self.side_map(s1)[k1].chunk_ids@.len() && 0 <= t2 < self.side_map(s2)[k2].chunk_ids@.len()
                && #[trigger] self.side_map(s1)[k1].chunk_ids@[t1] == #[trigger] self.side_map(s2)[k2].chunk_ids@[t2]
                ==> s1 == s2 && k1 == k2
    }

    /// The order in slot `j` of chunk `c` records that position and lives in
    /// a chunk of the level of its side and price.
    pub closed spec fn slot_ok(&self, c: int, j: int) -> bool {
        let o = self.chunks()[c].data_at(j)->0;
        let k = book_key(o.side, o.limit);
        &&& o.id == ArenaId { chunk_id: c as u16, slot_id: j as u16 }
        &&& self.side_map(o.side).contains_key(k)
        &&& self.side_map(o.side)[k].chunk_ids@.contains(c as usize)
    }
}

/// Rests `data` in the level `key` of `map`, which is created at `price`
/// with a claimed chunk when there is none.
fn place_in(
    map: &mut BTreeMap<u64, PriceLevel>,
    order_arena: &mut SlotArena<LimitOrder<ArenaId>>,
    key: u64,
    price: u64,
    data: LimitOrder<ArenaId>,
) -> (id: ArenaId)
    requires
        old(order_arena).wf(),
        old(order_arena).chunks@.len() <= 65536,
        0 < old(order_arena).chunk_size <= 65536,
        forall|c: int| 0 <= c < old(order_arena).chunks@.len() ==> (#[trigger] old(order_arena).chunks@[c]).total_spec() <= old(order_arena).chunk_size,
        old(order_arena).free_chunks@.len() > 0,
        old(order_arena).chunks@[old(order_arena).free_chunks@.last() as int].order().len() == 0,
        old(map)@.contains_key(key) ==> {
            let cs = old(map)@[key].chunk_ids@;
            &&& cs.len() > 0
            &&& chunks_ok(*old(order_arena), cs)
            &&& !cs.contains(old(order_arena).free_chunks@.last())
        },
    ensures
        ({
            let a0 = *old(order_arena);
            let a1 = *final(order_arena);
            let had = old(map)@.contains_key(key);
            let lv = final(map)@[key];
            let c = id.chunk_id as int;
            let claimed = !had || chunk_full(a0.chunks@[old(map)@[key].chunk_ids@.last() as int], a0.chunk_size);
            &&& final(map)@ == old(map)@.insert(key, lv)
            &&& !had ==> lv.price == price
            &&& lv.chunk_ids@ == (if !had {
                seq![a0.free_chunks@.last()]
            } else if claimed {
                old(map)@[key].chunk_ids@.push(a0.free_chunks@.last())
            } else {
                old(map)@[key].chunk_ids@
            })
            &&& a1.free_chunks@ == (if claimed { a0.free_chunks@.drop_last() } else { a0.free_chunks@ })
            &&& c == lv.chunk_ids@.last()
            &&& a1.wf()
            &&& a1.chunk_size == a0.chunk_size
            &&& a1.chunk_count == a0.chunk_count
            &&& a1.chunks@.len() == a0.chunks@.len()
            &&& forall|j: int| 0 <= j < a0.chunks@.len() && j != c ==> #[trigger] a1.chunks@[j] == a0.chunks@[j]
            &&& a0.chunks@[c].data_at(id.slot_id as int) is None
            &&& a1.chunks@[c].order() == a0.chunks@[c].order().push(id.slot_id as int)
            &&& a1.chunks@[c].data_at(id.slot_id as int) == Some(data)
            &&& forall|j: int| j != id.slot_id ==> #[trigger] a1.chunks@[c].data_at(j) == a0.chunks@[c].data_at(j)
            &&& a1.chunks@[c].total_spec() <= a1.chunk_size
            &&& chunks_ok(a1, lv.chunk_ids@)
            &&& level_seq(a1.chunks@, lv.chunk_ids@) == (if had {
                level_seq(a0.chunks@, old(map)@[key].chunk_ids@)
            } else {
                Seq::<int>::empty()
            }).push(arena_index(id))
        }),
{
    let ghost a0 = *order_arena;
    if !map.contains_key(&key) {
        let level = PriceLevel::new(price, order_arena);
        proof {
            let c = level.chunk_ids@[0];
            assert(level_seq(a0.chunks@, level.chunk_ids@) =~= Seq::<int>::empty()) by {
                assert(chunk_seqs(a0.chunks@, level.chunk_ids@) =~= seq![chunk_seq(a0.chunks@[c as int], c as int)]);
                assert(chunk_seq(a0.chunks@[c as int], c as int) =~= Seq::<int>::empty());
                lemma_flatten_snoc(Seq::<Seq<int>>::empty(), Seq::<int>::empty());
                assert(seq![chunk_seq(a0.chunks@[c as int], c as int)] =~= Seq::<Seq<int>>::empty().push(Seq::<int>::empty()));
                assert(flatten(Seq::<Seq<int>>::empty()) =~= Seq::<int>::empty());
            }
            a0.chunks@[c as int].lemma_occupied();
            assert(chunks_ok(*order_arena, level.chunk_ids@));
        }
        map.insert(key, level);
    }
    let mut level = map.remove(&key).unwrap();
    let ghost a_mid = *order_arena;
    let id = level.insert(order_arena, data);
    map.insert(key, level);
    proof {
        assert(map@ =~= old(map)@.insert(key, map@[key]));
    }
    id
}

impl OrderBook {
    /// What well-formedness says of the arena and of every occupied slot.
    pub closed spec fn arena_ok(&self) -> bool {
        let a = self.order_arena;
        &&& a.wf()
        &&& 0 < a.chunk_size < 65536
        &&& a.chunks@.len() <= 65536
        &&& forall|c: int| 0 <= c < a.chunks@.len() ==> (#[trigger] a.chunks@[c]).total_spec() <= a.chunk_size
        &&& forall|t: int| 0 <= t < a.free_chunks@.len() ==> a.chunks@[#[trigger] a.free_chunks@[t] as int].order().len() == 0
    }

    /// Every occupied slot is as `slot_ok` says.
    pub closed spec fn slots_ok(&self) -> bool {
        forall|c: int, j: int|
            0 <= c < self.chunks().len() && #[trigger] self.chunks()[c].data_at(j) is Some ==> self.slot_ok(c, j)
    }

    /// The levels of `side` with their index sequences.
    pub closed spec fn level_view(&self, side: OrderSide) -> Map<u64, Seq<int>> {
        self.side_map(side).map_values(|lv: PriceLevel| level_seq(self.chunks(), lv.chunk_ids@))
    }
}

/// An order's index names its arena position back.
proof fn lemma_arena_index(id: ArenaId)
    ensures
        0 <= arena_index(id) < 65536 * 65536,
        arena_id_of(arena_index(id)) == id,
        arena_index(id) / 65536 == id.chunk_id,
        arena_index(id) % 65536 == id.slot_id,
{
}

/// Resting the order `id` in the level `key` of its side keeps the book
/// well formed and appends it to that level.
#[verifier::rlimit(60)]
proof fn lemma_placed(b0: OrderBook, b1: OrderBook, request: LimitOrderRequest, id: ArenaId)
    requires
        b0.wf(),
        b0.can_place(),
        ({
            let side = request.side;
            let key = book_key(side, request.limit);
            let m0 = b0.side_map(side);
            let had = m0.contains_key(key);
            let lv = b1.side_map(side)[key];
            let a0 = b0.order_arena;
            let a1 = b1.order_arena;
            let c = id.chunk_id as int;
            let claimed = !had || chunk_full(a0.chunks@[m0[key].chunk_ids@.last() as int], a0.chunk_size);
            &&& b1.side_map(side) == m0.insert(key, lv)
            &&& b1.side_map(side.opposite()) == b0.side_map(side.opposite())
            &&& lv.chunk_ids@ == (if !had {
                seq![a0.free_chunks@.last()]
            } else if claimed {
                m0[key].chunk_ids@.push(a0.free_chunks@.last())
            } else {
                m0[key].chunk_ids@
            })
            &&& a1.free_chunks@ == (if claimed { a0.free_chunks@.drop_last() } else { a0.free_chunks@ })
            &&& c == lv.chunk_ids@.last()
            &&& a1.wf()
            &&& a1.chunk_size == a0.chunk_size
            &&& a1.chunks@.len() == a0.chunks@.len()
            &&& forall|j: int| 0 <= j < a0.chunks@.len() && j != c ==> #[trigger] a1.chunks@[j] == a0.chunks@[j]
            &&& a0.chunks@[c].data_at(id.slot_id as int) is None
            &&& a1.chunks@[c].order() == a0.chunks@[c].order().push(id.slot_id as int)
            &&& a1.chunks@[c].data_at(id.slot_id as int) == Some(
                LimitOrder { id, side, limit: request.limit, amount: request.amount },
            )
            &&& forall|j: int| j != id.slot_id ==> #[trigger] a1.chunks@[c].data_at(j) == a0.chunks@[c].data_at(j)
            &&& a1.chunks@[c].total_spec() <= a1.chunk_size
            &&& chunks_ok(a1, lv.chunk_ids@)
            &&& level_seq(a1.chunks@, lv.chunk_ids@) == (if had {
                level_seq(a0.chunks@, m0[key].chunk_ids@)
            } else {
                Seq::<int>::empty()
            }).push(arena_index(id))
        }),
    ensures
        b1.wf(),
        b0.order_at(OrderBook::index_of(id)) is None,
        b1.order_at(OrderBook::index_of(id)) == Some(request),
        forall|j: int| j != OrderBook::index_of(id) ==> #[trigger] b1.order_at(j) == b0.order_at(j),
        b1.levels(request.side) == b0.levels(request.side).insert(
            book_key(request.side, request.limit),
            (if b0.levels(request.side).contains_key(book_key(request.side, request.limit)) {
                b0.levels(request.side)[book_key(request.side, request.limit)]
            } else {
                Seq::<int>::empty()
            }).push(OrderBook::index_of(id)),
        ),
        b1.levels(request.side.opposite()) == b0.levels(request.side.opposite()),
        b1.order_count() == b0.order_count() + 1,
{
    let side = request.side;
    let key = book_key(side, request.limit);
    let m0 = b0.side_map(side);
    let had = m0.contains_key(key);
    let lv = b1.side_map(side)[key];
    let a0 = b0.order_arena;
    let a1 = b1.order_arena;
    let c = id.chunk_id as int;
    let claimed = !had || chunk_full(a0.chunks@[m0[key].chunk_ids@.last() as int], a0.chunk_size);
    let f = a0.free_chunks@.last();
    lemma_arena_index(id);
    if had {
        assert(b0.level_ok(side, key));
    }
    // The chunk the order went to is the level's own or the claimed one.
    assert(claimed ==> c == f as int);
    assert(!claimed ==> m0[key].chunk_ids@.contains(c as usize)) by {
        if !claimed {
            assert(m0[key].chunk_ids@[m0[key].chunk_ids@.len() - 1] == c as usize);
        }
    }
    assert(a0.free_chunks@[a0.free_chunks@.len() - 1] == f);
    // The claimed chunk belonged to no level.
    assert forall|s: OrderSide, k: u64, t: int|
        b0.side_map(s).contains_key(k) && 0 <= t < b0.side_map(s)[k].chunk_ids@.len() implies #[trigger] b0.side_map(s)[k].chunk_ids@[t] != f by {
        assert(b0.level_ok(s, k));
        assert(!a0.free_chunks@.contains(b0.side_map(s)[k].chunk_ids@[t]));
    }
    // Chunk `c` belongs to level (side, key) only.
    assert forall|s: OrderSide, k: u64, t: int|
        b0.side_map(s).contains_key(k) && 0 <= t < b0.side_map(s)[k].chunk_ids@.len() && #[trigger] b0.side_map(s)[k].chunk_ids@[t] == c as usize
            implies s == side && k == key by {
        if !claimed {
            let t0 = choose|t0: int| 0 <= t0 < m0[key].chunk_ids@.len() && m0[key].chunk_ids@[t0] == c as usize;
            assert(b0.side_map(side)[key].chunk_ids@[t0] == b0.side_map(s)[k].chunk_ids@[t]);
        }
    }
    // Levels other than (side, key) keep their chunks unchanged.
    assert forall|s: OrderSide, k: u64| #[trigger] b0.side_map(s).contains_key(k) && !(s == side && k == key)
        implies level_seq(a1.chunks@, b0.side_map(s)[k].chunk_ids@) == level_seq(a0.chunks@, b0.side_map(s)[k].chunk_ids@) by {
        let cs = b0.side_map(s)[k].chunk_ids@;
        assert(b0.level_ok(s, k));
        assert forall|t: int| 0 <= t < cs.len() implies a1.chunks@[#[trigger] cs[t] as int] == a0.chunks@[cs[t] as int] by {
            if cs[t] as int == c {
                assert(b0.side_map(s)[k].chunk_ids@[t] == c as usize);
            }
        }
        lemma_level_seq_same(a0.chunks@, a1.chunks@, cs);
    }
    // Well-formedness of the arena.
    assert(b1.arena_ok()) by {
        assert forall|c2: int| 0 <= c2 < a1.chunks@.len() implies (#[trigger] a1.chunks@[c2]).total_spec() <= a1.chunk_size by {
            if c2 != c {
                assert(a1.chunks@[c2] == a0.chunks@[c2]);
            }
        }
        assert forall|t: int| 0 <= t < a1.free_chunks@.len() implies a1.chunks@[#[trigger] a1.free_chunks@[t] as int].order().len() == 0 by {
            let x = a1.free_chunks@[t];
            assert(a0.free_chunks@[t] == x);
            if x as int == c {
                if claimed {
                    assert(a0.free_chunks@[t] == a0.free_chunks@[a0.free_chunks@.len() - 1]);
                } else {
                    assert(m0[key].chunk_ids@.contains(x));
                    let t0 = choose|t0: int| 0 <= t0 < m0[key].chunk_ids@.len() && m0[key].chunk_ids@[t0] == x;
                    assert(!a0.free_chunks@.contains(m0[key].chunk_ids@[t0]));
                }
            }
        }
    }
    // Levels.
    assert forall|s: OrderSide, k: u64| #[trigger] b1.side_map(s).contains_key(k) implies b1.level_ok(s, k) by {
        let cs = b1.side_map(s)[k].chunk_ids@;
        if s == side && k == key {
            assert forall|t: int| 0 <= t < cs.len() implies a1.chunks@[#[trigger] cs[t] as int].order().len() > 0 by {
                if cs[t] as int != c {
                    assert(had);
                    let cs0 = m0[key].chunk_ids@;
                    assert(cs[t] == cs0[t]);
                    assert(a1.chunks@[cs[t] as int] == a0.chunks@[cs[t] as int]);
                }
            }
            assert forall|t: int| 0 <= t < cs.len() implies !a1.free_chunks@.contains(#[trigger] cs[t]) by {
                if a1.free_chunks@.contains(cs[t]) {
                    let u = choose|u: int| 0 <= u < a1.free_chunks@.len() && a1.free_chunks@[u] == cs[t];
                    assert(a0.free_chunks@[u] == cs[t]);
                    if cs[t] == f {
                        assert(claimed);
                        assert(a0.free_chunks@[u] == a0.free_chunks@[a0.free_chunks@.len() - 1]);
                    } else {
                        assert(had);
                        assert(cs[t] == m0[key].chunk_ids@[t]);
                        assert(!a0.free_chunks@.contains(m0[key].chunk_ids@[t]));
                    }
                }
            }
        } else {
            assert(b0.side_map(s).contains_key(k));
            assert(b0.level_ok(s, k));
            assert(b1.side_map(s)[k] == b0.side_map(s)[k]);
            assert forall|t: int| 0 <= t < cs.len() implies a1.chunks@[#[trigger] cs[t] as int].order().len() > 0 by {
                if cs[t] as int == c {
                    assert(b0.side_map(s)[k].chunk_ids@[t] == c as usize);
                }
            }
            assert forall|t: int| 0 <= t < cs.len() implies !a1.free_chunks@.contains(#[trigger] cs[t]) by {
                if a1.free_chunks@.contains(cs[t]) {
                    let u = choose|u: int| 0 <= u < a1.free_chunks@.len() && a1.free_chunks@[u] == cs[t];
                    assert(a0.free_chunks@[u] == cs[t]);
                }
            }
        }
    }
    // Owners.
    assert(b1.owners_ok()) by {
        assert forall|s1: OrderSide, k1: u64, t1: int, s2: OrderSide, k2: u64, t2: int|
            b1.side_map(s1).contains_key(k1) && b1.side_map(s2).contains_key(k2) && 0 <= t1
                < b1.side_map(s1)[k1].chunk_ids@.len() && 0 <= t2 < b1.side_map(s2)[k2].chunk_ids@.len()
                && #[trigger] b1.side_map(s1)[k1].chunk_ids@[t1] == #[trigger] b1.side_map(s2)[k2].chunk_ids@[t2]
            implies s1 == s2 && k1 == k2 by {
            let x = b1.side_map(s1)[k1].chunk_ids@[t1];
            let new1 = s1 == side && k1 == key;
            let new2 = s2 == side && k2 == key;
            if !new1 && !new2 {
                assert(b0.side_map(s1)[k1] == b1.side_map(s1)[k1]);
                assert(b0.side_map(s2)[k2] == b1.side_map(s2)[k2]);
            } else if new1 && !new2 {
                assert(b0.side_map(s2)[k2] == b1.side_map(s2)[k2]);
                assert(b0.side_map(s2).contains_key(k2));
                if x == f && claimed {
                    assert(b0.side_map(s2)[k2].chunk_ids@[t2] != f);
                } else {
                    assert(had);
                    assert(x == m0[key].chunk_ids@[t1]);
                    assert(b0.side_map(side)[key].chunk_ids@[t1] == b0.side_map(s2)[k2].chunk_ids@[t2]);
                }
            } else if !new1 && new2 {
                assert(b0.side_map(s1)[k1] == b1.side_map(s1)[k1]);
                assert(b0.side_map(s1).contains_key(k1));
                if x == f && claimed {
                    assert(b0.side_map(s1)[k1].chunk_ids@[t1] != f);
                } else {
                    assert(had);
                    assert(x == m0[key].chunk_ids@[t2]);
                    assert(b0.side_map(side)[key].chunk_ids@[t2] == b0.side_map(s1)[k1].chunk_ids@[t1]);
                }
            }
        }
    }
    // Slots.
    assert(b1.slots_ok()) by {
        assert forall|c2: int, j: int| 0 <= c2 < b1.chunks().len() && #[trigger] b1.chunks()[c2].data_at(j) is Some implies b1.slot_ok(c2, j) by {
            if c2 == c && j == id.slot_id {
                assert(lv.chunk_ids@[lv.chunk_ids@.len() - 1] == c as usize);
            } else {
                assert(b1.chunks()[c2].data_at(j) == b0.chunks()[c2].data_at(j));
                assert(b0.slot_ok(c2, j));
                let o = b0.chunks()[c2].data_at(j)->0;
                let k = book_key(o.side, o.limit);
                if o.side == side && k == key {
                    let cs0 = m0[key].chunk_ids@;
                    let u = choose|u: int| 0 <= u < cs0.len() && cs0[u] == c2 as usize;
                    if claimed {
                        assert(lv.chunk_ids@[u] == c2 as usize);
                    } else {
                        assert(lv.chunk_ids@[u] == c2 as usize);
                    }
                }
            }
        }
    }
    // The model.
    assert forall|j: int| j != OrderBook::index_of(id) implies #[trigger] b1.order_at(j) == b0.order_at(j) by {
        if 0 <= j < 65536 * 65536 {
            let aj = arena_id_of(j);
            if aj.chunk_id as int == c {
                assert(aj.slot_id != id.slot_id);
            }
        }
    }
    assert(b1.levels(side) =~= b0.levels(side).insert(
        key,
        (if b0.levels(side).contains_key(key) {
            b0.levels(side)[key]
        } else {
            Seq::<int>::empty()
        }).push(OrderBook::index_of(id)),
    ));
    assert(b1.levels(side.opposite()) =~= b0.levels(side.opposite())) by {
        assert forall|k: u64| #[trigger] b1.side_map(side.opposite()).contains_key(k) implies b1.levels(side.opposite())[k] == b0.levels(side.opposite())[k] by {
            assert(b0.side_map(side.opposite()).contains_key(k));
        }
    }
    lemma_occupied_total_update(a0.chunks@, a1.chunks@, c);
}

/// Frees the slot of `id` in the level `key` of `map`; returns whether every
/// chunk of the level is now empty.
fn remove_from(
    map: &mut BTreeMap<u64, PriceLevel>,
    order_arena: &mut SlotArena<LimitOrder<ArenaId>>,
    key: u64,
    id: ArenaId,
) -> (empty: bool)
    requires
        old(map)@.contains_key(key),
        old(order_arena).wf(),
        old(order_arena).data_at(id) is Some,
        chunks_ok(*old(order_arena), old(map)@[key].chunk_ids@),
        old(map)@[key].chunk_ids@.contains(id.chunk_id as usize),
        !old(order_arena).free_chunks@.contains(id.chunk_id as usize),
    ensures
        ({
            let a0 = *old(order_arena);
            let a1 = *final(order_arena);
            let c = id.chunk_id as int;
            let emptied = a1.chunks@[c].order().len() == 0;
            let cs0 = old(map)@[key].chunk_ids@;
            let cs1 = final(map)@[key].chunk_ids@;
            &&& final(map)@ == old(map)@.insert(key, final(map)@[key])
            &&& final(map)@[key].price == old(map)@[key].price
            &&& a1.wf()
            &&& a1.chunk_size == a0.chunk_size
            &&& a1.chunks@.len() == a0.chunks@.len()
            &&& forall|j: int| 0 <= j < a0.chunks@.len() && j != c ==> #[trigger] a1.chunks@[j] == a0.chunks@[j]
            &&& a1.chunks@[c].data_at(id.slot_id as int) is None
            &&& forall|j: int| j != id.slot_id ==> #[trigger] a1.chunks@[c].data_at(j) == a0.chunks@[c].data_at(j)
            &&& a1.chunks@[c].total_spec() == a0.chunks@[c].total_spec()
            &&& a1.chunks@[c].order().len() + 1 == a0.chunks@[c].order().len()
            &&& a1.free_chunks@ == (if emptied { a0.free_chunks@.push(c as usize) } else { a0.free_chunks@ })
            &&& forall|u: usize| #[trigger] cs1.contains(u) <==> (cs0.contains(u) && !(emptied && u as int == c))
            &&& chunks_ok(a1, cs1)
            &&& exists|t: int|
                0 <= t < level_seq(a0.chunks@, cs0).len() && level_seq(a0.chunks@, cs0)[t] == arena_index(id)
                    && level_seq(a1.chunks@, cs1) == level_seq(a0.chunks@, cs0).remove(t)
            &&& empty == forall|t: int| 0 <= t < cs1.len() ==> (#[trigger] a1.chunks@[cs1[t] as int]).order().len() == 0
        }),
{
    let mut level = map.remove(&key).unwrap();
    level.remove(order_arena, id);
    let empty = level.is_empty(order_arena);
    map.insert(key, level);
    proof {
        assert(map@ =~= old(map)@.insert(key, map@[key]));
    }
    empty
}

/// Taking the order `id` out of the book keeps it well formed and removes
/// it from the model; its level leaves the book when it empties.
#[verifier::rlimit(80)]
proof fn lemma_removed(b0: OrderBook, b1: OrderBook, id: ArenaId, empty: bool)
    requires
        b0.wf(),
        b0.order_arena.data_at(id) is Some,
        ({
            let o = b0.order_arena.data_at(id)->0;
            let side = o.side;
            let key = book_key(side, o.limit);
            let m0 = b0.side_map(side);
            let a0 = b0.order_arena;
            let a1 = b1.order_arena;
            let c = id.chunk_id as int;
            let emptied = a1.chunks@[c].order().len() == 0;
            let lv = PriceLevel { price: m0[key].price, chunk_ids: b1.side_map(side)[key].chunk_ids };
            let cs0 = m0[key].chunk_ids@;
            let cs1 = lv.chunk_ids@;
            &&& m0.contains_key(key)
            &&& b1.side_map(side.opposite()) == b0.side_map(side.opposite())
            &&& b1.side_map(side) == (if empty { m0.remove(key) } else { m0.insert(key, b1.side_map(side)[key]) })
            &&& a1.wf()
            &&& a1.chunk_size == a0.chunk_size
            &&& a1.chunks@.len() == a0.chunks@.len()
            &&& forall|j: int| 0 <= j < a0.chunks@.len() && j != c ==> #[trigger] a1.chunks@[j] == a0.chunks@[j]
            &&& a1.chunks@[c].data_at(id.slot_id as int) is None
            &&& forall|j: int| j != id.slot_id ==> #[trigger] a1.chunks@[c].data_at(j) == a0.chunks@[c].data_at(j)
            &&& a1.chunks@[c].total_spec() == a0.chunks@[c].total_spec()
            &&& a1.chunks@[c].order().len() + 1 == a0.chunks@[c].order().len()
            &&& a1.free_chunks@ == (if emptied { a0.free_chunks@.push(c as usize) } else { a0.free_chunks@ })
            &&& !empty ==> forall|u: usize| #[trigger] cs1.contains(u) <==> (cs0.contains(u) && !(emptied && u as int == c))
            &&& !empty ==> chunks_ok(a1, cs1)
            &&& forall|u: usize| #[trigger] cs0.contains(u) && u as int != c ==> !empty
            &&& empty ==> emptied
            &&& emptied && empty ==> cs0.len() == 1
            &&& !empty ==> exists|t: int|
                0 <= t < level_seq(a0.chunks@, cs0).len() && level_seq(a0.chunks@, cs0)[t] == arena_index(id)
                    && level_seq(a1.chunks@, cs1) == level_seq(a0.chunks@, cs0).remove(t)
            &&& !empty ==> exists|u: usize| #[trigger] cs1.contains(u) && a1.chunks@[u as int].order().len() > 0
        }),
    ensures
        b1.wf(),
        ({
            let o = b0.order_at(OrderBook::index_of(id))->0;
            let i = OrderBook::index_of(id);
            let k = book_key(o.side, o.limit);
            let lv = b0.levels(o.side)[k];
            &&& b0.order_at(i) is Some
            &&& b0.levels(o.side).contains_key(k)
            &&& lv.contains(i)
            &&& forall|t: int|
                0 <= t < lv.len() && lv[t] == i ==> #[trigger] b1.levels(o.side) == (if lv.len() == 1 {
                    b0.levels(o.side).remove(k)
                } else {
                    b0.levels(o.side).insert(k, lv.remove(t))
                })
            &&& b1.levels(o.side.opposite()) == b0.levels(o.side.opposite())
            &&& b1.order_at(i) is None
            &&& forall|j: int| j != i ==> #[trigger] b1.order_at(j) == b0.order_at(j)
            &&& b1.order_count() + 1 == b0.order_count()
            &&& b0.can_place() ==> b1.can_place()
        }),
{
    let o = b0.order_arena.data_at(id)->0;
    let side = o.side;
    let key = book_key(side, o.limit);
    let m0 = b0.side_map(side);
    let a0 = b0.order_arena;
    let a1 = b1.order_arena;
    let c = id.chunk_id as int;
    let emptied = a1.chunks@[c].order().len() == 0;
    let cs0 = m0[key].chunk_ids@;
    let cs1 = b1.side_map(side)[key].chunk_ids@;
    let i = arena_index(id);
    lemma_arena_index(id);
    assert(b0.slot_ok(c, id.slot_id as int));
    assert(o.id == id);
    assert(b0.level_ok(side, key));
    lemma_level_seq(a0.chunks@, cs0);
    let l0 = level_seq(a0.chunks@, cs0);
    assert(l0.contains(i));
    assert(b0.levels(side)[key] == l0);
    // Chunk `c` belongs to level (side, key) only.
    assert forall|s: OrderSide, k: u64, t: int|
        b0.side_map(s).contains_key(k) && 0 <= t < b0.side_map(s)[k].chunk_ids@.len() && #[trigger] b0.side_map(s)[k].chunk_ids@[t] == c as usize
            implies s == side && k == key by {
        let t0 = choose|t0: int| 0 <= t0 < cs0.len() && cs0[t0] == c as usize;
        assert(b0.side_map(side)[key].chunk_ids@[t0] == b0.side_map(s)[k].chunk_ids@[t]);
    }
    // Other levels keep their sequences.
    assert forall|s: OrderSide, k: u64| #[trigger] b0.side_map(s).contains_key(k) && !(s == side && k == key)
        implies level_seq(a1.chunks@, b0.side_map(s)[k].chunk_ids@) == level_seq(a0.chunks@, b0.side_map(s)[k].chunk_ids@) by {
        let cs = b0.side_map(s)[k].chunk_ids@;
        assert forall|t: int| 0 <= t < cs.len() implies a1.chunks@[#[trigger] cs[t] as int] == a0.chunks@[cs[t] as int] by {
            if cs[t] as int == c {
                assert(b0.side_map(s)[k].chunk_ids@[t] == c as usize);
            }
        }
        lemma_level_seq_same(a0.chunks@, a1.chunks@, cs);
    }
    // The arena.
    assert(b1.arena_ok()) by {
        assert forall|c2: int| 0 <= c2 < a1.chunks@.len() implies (#[trigger] a1.chunks@[c2]).total_spec() <= a1.chunk_size by {
            if c2 != c {
                assert(a1.chunks@[c2] == a0.chunks@[c2]);
            }
        }
        assert forall|t: int| 0 <= t < a1.free_chunks@.len() implies a1.chunks@[#[trigger] a1.free_chunks@[t] as int].order().len() == 0 by {
            let x = a1.free_chunks@[t];
            if t < a0.free_chunks@.len() {
                assert(a0.free_chunks@[t] == x);
                if x as int == c {
                    assert(!a0.free_chunks@.contains(c as usize)) by {
                        let t0 = choose|t0: int| 0 <= t0 < cs0.len() && cs0[t0] == c as usize;
                        assert(!a0.free_chunks@.contains(cs0[t0]));
                    }
                }
            }
        }
    }
    // Levels.
    assert forall|s: OrderSide, k: u64| #[trigger] b1.side_map(s).contains_key(k) implies b1.level_ok(s, k) by {
        let cs = b1.side_map(s)[k].chunk_ids@;
        if s == side && k == key {
            assert(!empty);
            assert forall|t: int| 0 <= t < cs.len() implies a1.chunks@[#[trigger] cs[t] as int].order().len() > 0 by {
                assert(cs.contains(cs[t]));
                assert(cs0.contains(cs[t]));
                let t0 = choose|t0: int| 0 <= t0 < cs0.len() && cs0[t0] == cs[t];
                if cs[t] as int != c {
                    assert(a1.chunks@[cs[t] as int] == a0.chunks@[cs[t] as int]);
                }
            }
            assert forall|t: int| 0 <= t < cs.len() implies !a1.free_chunks@.contains(#[trigger] cs[t]) by {
                assert(cs.contains(cs[t]));
                assert(cs0.contains(cs[t]));
                let t0 = choose|t0: int| 0 <= t0 < cs0.len() && cs0[t0] == cs[t];
                assert(!a0.free_chunks@.contains(cs0[t0]));
                if a1.free_chunks@.contains(cs[t]) {
                    let u = choose|u: int| 0 <= u < a1.free_chunks@.len() && a1.free_chunks@[u] == cs[t];
                    if u < a0.free_chunks@.len() {
                        assert(a0.free_chunks@[u] == cs[t]);
                    }
                }
            }
            assert(cs.len() > 0) by {
                let u = choose|u: usize| #[trigger] cs1.contains(u) && a1.chunks@[u as int].order().len() > 0;
            }
        } else {
            assert(b0.side_map(s).contains_key(k));
            assert(b0.level_ok(s, k));
            assert(b1.side_map(s)[k] == b0.side_map(s)[k]);
            assert forall|t: int| 0 <= t < cs.len() implies a1.chunks@[#[trigger] cs[t] as int].order().len() > 0 by {
                if cs[t] as int == c {
                    assert(b0.side_map(s)[k].chunk_ids@[t] == c as usize);
                }
            }
            assert forall|t: int| 0 <= t < cs.len() implies !a1.free_chunks@.contains(#[trigger] cs[t]) by {
                if a1.free_chunks@.contains(cs[t]) {
                    let u = choose|u: int| 0 <= u < a1.free_chunks@.len() && a1.free_chunks@[u] == cs[t];
                    if u < a0.free_chunks@.len() {
                        assert(a0.free_chunks@[u] == cs[t]);
                    } else {
                        assert(b0.side_map(s)[k].chunk_ids@[t] == c as usize);
                    }
                }
            }
        }
    }
    // Owners.
    assert(b1.owners_ok()) by {
        assert forall|s1: OrderSide, k1: u64, t1: int, s2: OrderSide, k2: u64, t2: int|
            b1.side_map(s1).contains_key(k1) && b1.side_map(s2).contains_key(k2) && 0 <= t1
                < b1.side_map(s1)[k1].chunk_ids@.len() && 0 <= t2 < b1.side_map(s2)[k2].chunk_ids@.len()
                && #[trigger] b1.side_map(s1)[k1].chunk_ids@[t1] == #[trigger] b1.side_map(s2)[k2].chunk_ids@[t2]
            implies s1 == s2 && k1 == k2 by {
            let x = b1.side_map(s1)[k1].chunk_ids@[t1];
            let new1 = s1 == side && k1 == key;
            let new2 = s2 == side && k2 == key;
            assert(b0.side_map(s1).contains_key(k1));
            assert(b0.side_map(s2).contains_key(k2));
            if !new1 && !new2 {
                assert(b0.side_map(s1)[k1] == b1.side_map(s1)[k1]);
                assert(b0.side_map(s2)[k2] == b1.side_map(s2)[k2]);
            } else if new1 && !new2 {
                assert(b0.side_map(s2)[k2] == b1.side_map(s2)[k2]);
                assert(cs1.contains(x));
                assert(cs0.contains(x));
                let t0 = choose|t0: int| 0 <= t0 < cs0.len() && cs0[t0] == x;
                assert(b0.side_map(side)[key].chunk_ids@[t0] == b0.side_map(s2)[k2].chunk_ids@[t2]);
            } else if !new1 && new2 {
                assert(b0.side_map(s1)[k1] == b1.side_map(s1)[k1]);
                assert(cs1.contains(x));
                assert(cs0.contains(x));
                let t0 = choose|t0: int| 0 <= t0 < cs0.len() && cs0[t0] == x;
                assert(b0.side_map(side)[key].chunk_ids@[t0] == b0.side_map(s1)[k1].chunk_ids@[t1]);
            }
        }
    }
    // Slots.
    assert(b1.slots_ok()) by {
        assert forall|c2: int, j: int| 0 <= c2 < b1.chunks().len() && #[trigger] b1.chunks()[c2].data_at(j) is Some implies b1.slot_ok(c2, j) by {
            assert(b1.chunks()[c2].data_at(j) == b0.chunks()[c2].data_at(j));
            assert(b0.slot_ok(c2, j));
            let o2 = b0.chunks()[c2].data_at(j)->0;
            let k = book_key(o2.side, o2.limit);
            if o2.side == side && k == key {
                assert(cs0.contains(c2 as usize));
                if c2 == c {
                    a1.chunks@[c].lemma_occupied();
                    assert(!emptied);
                }
                assert(!empty);
                assert(cs1.contains(c2 as usize));
            }
        }
    }
    // The model.
    assert forall|j: int| j != i implies #[trigger] b1.order_at(j) == b0.order_at(j) by {
        if 0 <= j < 65536 * 65536 {
            let aj = arena_id_of(j);
            if aj.chunk_id as int == c {
                assert(aj.slot_id != id.slot_id);
            }
        }
    }
    assert forall|t: int| 0 <= t < l0.len() && l0[t] == i implies #[trigger] b1.levels(side) == (if l0.len() == 1 {
        b0.levels(side).remove(key)
    } else {
        b0.levels(side).insert(key, l0.remove(t))
    }) by {
        if empty {
            // Every chunk of the level is now empty, so the level held `i` only.
            assert(l0.len() == 1) by {
                if l0.len() != 1 {
                    let t2 = if t == 0 { 1int } else { 0int };
                    let x = l0[t2];
                    assert(l0.contains(x));
                    assert(x != i);
                    let cx = x / 65536;
                    assert(cs0.contains(cx as usize));
                    if cx == c {
                        assert(a0.chunks@[c].data_at(x % 65536) is Some);
                        assert(x % 65536 != id.slot_id);
                        assert(a1.chunks@[c].data_at(x % 65536) is Some);
                        a1.chunks@[c].lemma_occupied();
                    }
                }
            }
            assert(b1.levels(side) =~= b0.levels(side).remove(key));
        } else {
            let tt = choose|tt: int|
                0 <= tt < l0.len() && l0[tt] == i && level_seq(a1.chunks@, cs1) == l0.remove(tt);
            assert(tt == t);
            // The level still holds some order: one of its chunks is not empty.
            assert(l0.len() != 1) by {
                if l0.len() == 1 {
                    let u = choose|u: usize| #[trigger] cs1.contains(u) && a1.chunks@[u as int].order().len() > 0;
                    assert(cs0.contains(u));
                    let ch = a1.chunks@[u as int];
                    ch.lemma_occupied();
                    let sl = ch.order()[0];
                    assert(ch.data_at(sl) is Some);
                    if u as int == c {
                        assert(sl != id.slot_id);
                    } else {
                        assert(ch == a0.chunks@[u as int]);
                    }
                    assert(a0.chunks@[u as int].data_at(sl) is Some);
                    let x = u * 65536 + sl;
                    assert(0 <= sl < 65536);
                    assert(x / 65536 == u as int && x % 65536 == sl);
                    assert(l0.contains(x));
                    assert(x != i);
                    let v = choose|v: int| 0 <= v < l0.len() && l0[v] == x;
                }
            }
            assert(b1.levels(side) =~= b0.levels(side).insert(key, l0.remove(t)));
        }
    }
    assert(b1.levels(side.opposite()) =~= b0.levels(side.opposite())) by {
        assert forall|k: u64| #[trigger] b1.side_map(side.opposite()).contains_key(k) implies b1.levels(side.opposite())[k] == b0.levels(side.opposite())[k] by {
            assert(b0.side_map(side.opposite()).contains_key(k));
        }
    }
    lemma_occupied_total_update(a0.chunks@, a1.chunks@, c);
}


/// The order at index `i` of `arena`, if any.
pub open spec fn arena_at(arena: SlotArena<LimitOrder<ArenaId>>, i: int) -> Option<LimitOrder<ArenaId>> {
    if 0 <= i < 65536 * 65536 {
        arena.data_at(arena_id_of(i))
    } else {
        None
    }
}

/// The order `o` with the amount `a`.
pub open spec fn with_amount(o: LimitOrder<ArenaId>, a: nat) -> LimitOrder<ArenaId> {
    LimitOrder { id: o.id, side: o.side, limit: o.limit, amount: a as u64 }
}

/// The amounts of the orders with indices `q` in `arena`.
pub open spec fn amounts_in(arena: SlotArena<LimitOrder<ArenaId>>, q: Seq<int>) -> Seq<nat> {
    q.map_values(|i: int| arena_at(arena, i)->0.amount as nat)
}

/// `new` is `old` with the order `q[u]` given the amount `am[u]`, for each
/// position `u` of `q`; nothing else changed.
pub open spec fn filled_in(
    old: SlotArena<LimitOrder<ArenaId>>,
    new: SlotArena<LimitOrder<ArenaId>>,
    q: Seq<int>,
    am: Seq<nat>,
) -> bool {
    &&& new.wf()
    &&& new.free_chunks == old.free_chunks
    &&& new.chunk_size == old.chunk_size
    &&& new.chunks@.len() == old.chunks@.len()
    &&& forall|c: int|
        0 <= c < old.chunks@.len() ==> {
            &&& (#[trigger] new.chunks@[c]).order() == old.chunks@[c].order()
            &&& new.chunks@[c].free_list() == old.chunks@[c].free_list()
            &&& new.chunks@[c].total_spec() == old.chunks@[c].total_spec()
        }
    &&& forall|u: int| 0 <= u < q.len() ==> #[trigger] arena_at(new, q[u]) == Some(with_amount(arena_at(old, q[u])->0, am[u]))
    &&& forall|i: int| !q.contains(i) ==> #[trigger] arena_at(new, i) == arena_at(old, i)
}

/// The identifiers of the orders of `level`, in the order the level serves them.
fn level_order_ids(level: &PriceLevel, order_arena: &SlotArena<LimitOrder<ArenaId>>) -> (ids: Vec<ArenaId>)
    requires
        order_arena.wf(),
        order_arena.chunks@.len() <= 65536,
        chunks_ok(*order_arena, level.chunk_ids@),
        forall|c: int| 0 <= c < order_arena.chunks@.len() ==> (#[trigger] order_arena.chunks@[c]).total_spec() < 65536,
        forall|t: int, j: int|
            0 <= t < level.chunk_ids@.len() && #[trigger] order_arena.chunks@[level.chunk_ids@[t] as int].data_at(j) is Some
                ==> order_arena.chunks@[level.chunk_ids@[t] as int].data_at(j)->0.id == (ArenaId {
                chunk_id: level.chunk_ids@[t] as u16,
                slot_id: j as u16,
            }),
    ensures
        ids@.map_values(|id: ArenaId| arena_index(id)) == level_seq(order_arena.chunks@, level.chunk_ids@),
{
    let ghost chunks = order_arena.chunks@;
    let ghost cs = level.chunk_ids@;
    let mut ids: Vec<ArenaId> = Vec::new();
    let mut t: usize = 0;
    proof {
        assert(chunk_seqs(chunks, cs.take(0)) =~= Seq::<Seq<int>>::empty());
        assert(ids@.map_values(|id: ArenaId| arena_index(id)) =~= level_seq(chunks, cs.take(0)));
    }
    while t < level.chunk_ids.len()
        invariant
            chunks == order_arena.chunks@,
            cs == level.chunk_ids@,
            order_arena.wf(),
            chunks.len() <= 65536,
            chunks_ok(*order_arena, cs),
            forall|c: int| 0 <= c < chunks.len() ==> (#[trigger] chunks[c]).total_spec() < 65536,
            forall|t2: int, j: int|
                0 <= t2 < cs.len() && #[trigger] chunks[cs[t2] as int].data_at(j) is Some ==> chunks[cs[t2] as int].data_at(j)->0.id
                    == (ArenaId { chunk_id: cs[t2] as u16, slot_id: j as u16 }),
            0 <= t <= cs.len(),
            ids@.map_values(|id: ArenaId| arena_index(id)) == level_seq(chunks, cs.take(t as int)),
        decreases cs.len() - t,
    {
        let c = level.chunk_ids[t];
        let chunk = &order_arena.chunks[c];
        let ghost ch = chunks[c as int];
        let ghost base = ids@;
        let n = chunk.capacity();
        let mut it = chunk.iter();
        let mut pos: usize = 0;
        proof {
            assert(cs.contains(c));
            ch.lemma_occupied();
            assert(base + Seq::<ArenaId>::empty() =~= base);
            assert(chunk_seq(ch, c as int).take(0) =~= Seq::<int>::empty());
            assert(ids@.map_values(|id: ArenaId| arena_index(id)) =~= level_seq(chunks, cs.take(t as int)) + chunk_seq(ch, c as int).take(0));
        }
        while pos < n
            invariant
                chunks == order_arena.chunks@,
                ch == chunks[c as int],
                ch.wf(),
                c < chunks.len(),
                n == ch.order().len(),
                ch.total_spec() < 65536,
                forall|j: int| #[trigger] ch.data_at(j) is Some ==> ch.data_at(j)->0.id == (ArenaId { chunk_id: c as u16, slot_id: j as u16 }),
                forall|i: int| #[trigger] ch.data_at(i) is Some <==> ch.order().contains(i),
                forall|u: int| 0 <= u < ch.order().len() ==> 0 <= #[trigger] ch.order()[u] < ch.total_spec(),
                c < 65536,
                it.wf(),
                it.source() == chunk,
                *chunk == ch,
                it.pos() == pos,
                0 <= pos <= n,
                ids@.map_values(|id: ArenaId| arena_index(id)) == level_seq(chunks, cs.take(t as int)) + chunk_seq(ch, c as int).take(pos as int),
            decreases n - pos,
        {
            let order = match it.next() {
                Some(o) => o,
                None => vstd::pervasive::unreached(),
            };
            let ghost before = ids@;
            ids.push(order.id);
            proof {
                let sl = ch.order()[pos as int];
                assert(ch.order().contains(sl));
                assert(*order == ch.data_at(sl)->0);
                assert(order.id == ArenaId { chunk_id: c as u16, slot_id: sl as u16 });
                assert(arena_index(order.id) == c * 65536 + sl);
                assert(chunk_seq(ch, c as int).take(pos + 1) =~= chunk_seq(ch, c as int).take(pos as int).push(c * 65536 + sl));
                assert(ids@.map_values(|id: ArenaId| arena_index(id)) =~= before.map_values(|id: ArenaId| arena_index(id)).push(
                    arena_index(order.id),
                ));
            }
            pos = pos + 1;
        }
        proof {
            assert(chunk_seq(ch, c as int).take(pos as int) =~= chunk_seq(ch, c as int));
            assert(cs.take(t + 1) =~= cs.take(t as int).push(c));
            assert(chunk_seqs(chunks, cs.take(t + 1)) =~= chunk_seqs(chunks, cs.take(t as int)).push(chunk_seq(ch, c as int)));
            lemma_flatten_snoc(chunk_seqs(chunks, cs.take(t as int)), chunk_seq(ch, c as int));
        }
        t = t + 1;
    }
    proof {
        assert(cs.take(t as int) =~= cs);
    }
    ids
}

/// The identifiers `v` as order indices.
pub open spec fn id_seq(v: Seq<ArenaId>) -> Seq<int> {
    v.map_values(|id: ArenaId| arena_index(id))
}

/// Fills the orders `ids`, oldest first, with the incoming amount `rem`; the
/// identifier of each order filled completely is appended to `filled`.
/// Returns what is left of `rem`.
fn fill_ids(
    ids: &Vec<ArenaId>,
    order_arena: &mut SlotArena<LimitOrder<ArenaId>>,
    rem: u64,
    filled: &mut Vec<ArenaId>,
) -> (left: u64)
    requires
        old(order_arena).wf(),
        old(order_arena).chunks@.len() <= 65536,
        id_seq(ids@).no_duplicates(),
        forall|t: int| 0 <= t < ids@.len() ==> arena_at(*old(order_arena), #[trigger] id_seq(ids@)[t]) is Some,
        forall|t: int| 0 <= t < ids@.len() ==> arena_at(*old(order_arena), #[trigger] id_seq(ids@)[t])->0.id == ids@[t],
    ensures
        ({
            let q = id_seq(ids@);
            let a = amounts_in(*old(order_arena), q);
            &&& left == fill_left(a, rem as nat)
            &&& filled_in(*old(order_arena), *final(order_arena), q, fill_amounts(a, rem as nat))
            &&& id_seq(final(filled)@) == id_seq(old(filled)@) + q.take(fill_count(a, rem as nat) as int)
            &&& left > 0 ==> fill_count(a, rem as nat) == q.len()
        }),
{
    let ghost o0 = *order_arena;
    let ghost q = id_seq(ids@);
    let ghost a = amounts_in(o0, q);
    let ghost buf0 = filled@;
    let mut remaining = rem;
    let mut t: usize = 0;
    proof {
        assert(a.take(0) =~= Seq::<nat>::empty());
        assert(q.take(0) =~= Seq::<int>::empty());
        assert(fill_amounts(a.take(0), rem as nat) =~= Seq::<nat>::empty());
        assert(id_seq(buf0) + q.take(0) =~= id_seq(buf0));
    }
    while t < ids.len() && remaining > 0
        invariant
            o0 == *old(order_arena),
            o0.wf(),
            o0.chunks@.len() <= 65536,
            q == id_seq(ids@),
            a == amounts_in(o0, q),
            buf0 == old(filled)@,
            q.no_duplicates(),
            forall|u: int| 0 <= u < ids@.len() ==> arena_at(o0, #[trigger] q[u]) is Some,
            forall|u: int| 0 <= u < ids@.len() ==> arena_at(o0, #[trigger] q[u])->0.id == ids@[u],
            0 <= t <= ids@.len(),
            remaining == fill_left(a.take(t as int), rem as nat),
            filled_in(o0, *order_arena, q.take(t as int), fill_amounts(a.take(t as int), rem as nat)),
            id_seq(filled@) == id_seq(buf0) + q.take(fill_count(a.take(t as int), rem as nat) as int),
            remaining > 0 ==> fill_count(a.take(t as int), rem as nat) == t,
        decreases ids@.len() - t,
    {
        let id = ids[t];
        let ghost tt = t as int;
        let ghost o1 = *order_arena;
        proof {
            lemma_arena_index(id);
            assert(q[tt] == arena_index(id));
            lemma_fill_split(a.take(tt), seq![a[tt]], rem as nat);
            assert(!q.take(tt).contains(q[tt])) by {
                if q.take(tt).contains(q[tt]) {
                    let u = choose|u: int| 0 <= u < tt && q.take(tt)[u] == q[tt];
                    assert(q[u] == q[tt]);
                }
            }
            assert(arena_at(o1, q[tt]) == arena_at(o0, q[tt]));
            assert(o1.data_at(id) == arena_at(o1, q[tt]));
        }
        let ghost l1 = remaining as nat;
        let order = order_arena.get_unchecked_mut(id);
        let fill = if order.amount < remaining {
            order.amount
        } else {
            remaining
        };
        order.amount = order.amount - fill;
        let done = order.amount == 0;
        remaining = remaining - fill;
        let ghost f1 = filled@;
        if done {
            filled.push(id);
        }
        proof {
            let at = a.take(tt);
            let qt = q.take(tt);
            let amount = arena_at(o0, q[tt])->0.amount;
            assert(a.take(tt + 1) =~= at.push(a[tt]));
            assert(q.take(tt + 1) =~= qt.push(q[tt]));
            assert(a[tt] == amount);
            lemma_fill_snoc(at, a[tt], rem as nat);
            assert(fill == fill_take(a[tt], l1));
            let fa = fill_amounts(a.take(tt + 1), rem as nat);
            assert(fa == fill_amounts(at, rem as nat).push((amount - fill) as nat));
            let m2 = *order_arena;
            assert forall|i: int| i != q[tt] implies #[trigger] arena_at(m2, i) == arena_at(o1, i) by {
                if 0 <= i < 65536 * 65536 {
                    let ai = arena_id_of(i);
                    if ai.chunk_id == id.chunk_id {
                        assert(ai.slot_id != id.slot_id);
                    }
                }
            }
            assert(arena_at(m2, q[tt]) == Some(with_amount(arena_at(o0, q[tt])->0, (amount - fill) as nat)));
            assert forall|u: int| 0 <= u < tt + 1 implies #[trigger] arena_at(m2, q.take(tt + 1)[u]) == Some(
                with_amount(arena_at(o0, q.take(tt + 1)[u])->0, fa[u]),
            ) by {
                if u < tt {
                    assert(q.take(tt + 1)[u] == qt[u]);
                    assert(q[u] != q[tt]);
                    assert(arena_at(o1, qt[u]) == Some(with_amount(arena_at(o0, qt[u])->0, fill_amounts(at, rem as nat)[u])));
                    assert(fa[u] == fill_amounts(at, rem as nat)[u]);
                } else {
                    assert(q.take(tt + 1)[u] == q[tt]);
                    assert(fa[tt] == (amount - fill) as nat);
                }
            }
            assert forall|i: int| !q.take(tt + 1).contains(i) implies #[trigger] arena_at(m2, i) == arena_at(o0, i) by {
                assert(i != q[tt]) by {
                    if i == q[tt] {
                        assert(q.take(tt + 1)[tt] == i);
                    }
                }
                if qt.contains(i) {
                    let u = choose|u: int| 0 <= u < tt && qt[u] == i;
                    assert(q.take(tt + 1)[u] == i);
                }
            }
            assert forall|c: int| 0 <= c < o0.chunks@.len() implies {
                &&& (#[trigger] m2.chunks@[c]).order() == o0.chunks@[c].order()
                &&& m2.chunks@[c].free_list() == o0.chunks@[c].free_list()
                &&& m2.chunks@[c].total_spec() == o0.chunks@[c].total_spec()
            } by {
                assert(o1.chunks@[c].order() == o0.chunks@[c].order());
            }
            let c0 = fill_count(at, rem as nat);
            if done {
                assert(l1 > 0);
                assert(c0 == tt);
                assert(fill_count(a.take(tt + 1), rem as nat) == tt + 1);
                assert(id_seq(filled@) =~= id_seq(f1).push(q[tt]));
                assert(id_seq(filled@) =~= id_seq(buf0) + q.take(tt + 1));
            } else {
                assert(fill_count(a.take(tt + 1), rem as nat) == c0);
            }
        }
        t = t + 1;
    }
    proof {
        let tt = t as int;
        let at = a.take(tt);
        lemma_fill_split(at, a.skip(tt), rem as nat);
        assert(at + a.skip(tt) =~= a);
        if tt < q.len() {
            assert(remaining == 0);
            lemma_fill_zero(a.skip(tt));
            let fa = fill_amounts(a, rem as nat);
            assert(fa == fill_amounts(at, rem as nat) + a.skip(tt));
            assert forall|u: int| 0 <= u < q.len() implies #[trigger] arena_at(*order_arena, q[u]) == Some(
                with_amount(arena_at(o0, q[u])->0, fa[u]),
            ) by {
                if u < tt {
                    assert(q.take(tt)[u] == q[u]);
                } else {
                    assert(fa[u] == a[u]);
                    assert(!q.take(tt).contains(q[u])) by {
                        if q.take(tt).contains(q[u]) {
                            let v = choose|v: int| 0 <= v < tt && q.take(tt)[v] == q[u];
                            assert(q[v] == q[u]);
                        }
                    }
                    assert(arena_at(o0, q[u]) is Some);
                }
            }
            assert forall|i: int| !q.contains(i) implies #[trigger] arena_at(*order_arena, i) == arena_at(o0, i) by {
                if q.take(tt).contains(i) {
                    let v = choose|v: int| 0 <= v < tt && q.take(tt)[v] == i;
                    assert(q[v] == i);
                }
            }
            assert(fill_count(a, rem as nat) == fill_count(at, rem as nat));
        } else {
            assert(at =~= a);
            assert(q.take(tt) =~= q);
        }
    }
    remaining
}

/// The index sequence of each level of `map`.
pub open spec fn map_levels(map: Map<u64, PriceLevel>, chunks: Seq<SlotMapOptimized<LimitOrder<ArenaId>>>) -> Map<u64, Seq<int>> {
    map.map_values(|lv: PriceLevel| level_seq(chunks, lv.chunk_ids@))
}

/// Filling changes amounts only: the occupied slots and the identifiers
/// they record stay.
proof fn lemma_fill_keeps_ids(
    o0: SlotArena<LimitOrder<ArenaId>>,
    o1: SlotArena<LimitOrder<ArenaId>>,
    q: Seq<int>,
    am: Seq<nat>,
    c: int,
    j: int,
)
    requires
        o0.wf(),
        filled_in(o0, o1, q, am),
        0 <= c < o0.chunks@.len() <= 65536,
        o0.chunks@[c].total_spec() < 65536,
    ensures
        (o1.chunks@[c].data_at(j) is Some) == (o0.chunks@[c].data_at(j) is Some),
        o0.chunks@[c].data_at(j) is Some ==> o1.chunks@[c].data_at(j)->0.id == o0.chunks@[c].data_at(j)->0.id,
{
    o0.chunks@[c].lemma_occupied();
    o1.chunks@[c].lemma_occupied();
    if 0 <= j < 65536 {
        let i = c * 65536 + j;
        assert(arena_id_of(i) == ArenaId { chunk_id: c as u16, slot_id: j as u16 });
        assert(arena_at(o1, i) == o1.chunks@[c].data_at(j));
        assert(arena_at(o0, i) == o0.chunks@[c].data_at(j));
        if q.contains(i) {
            let u = choose|u: int| 0 <= u < q.len() && q[u] == i;
            assert(arena_at(o1, q[u]) == Some(with_amount(arena_at(o0, q[u])->0, am[u])));
        }
    }
}

/// Fills the levels of `map` whose key is at most `bound`, lowest key first
/// and each oldest order first, with the incoming `amount`; the identifier
/// of each order filled completely is appended to `filled`.  Returns what is
/// left of `amount`.
fn fill_side(
    map: &BTreeMap<u64, PriceLevel>,
    order_arena: &mut SlotArena<LimitOrder<ArenaId>>,
    bound: u64,
    amount: u64,
    filled: &mut Vec<ArenaId>,
) -> (left: u64)
    requires
        old(order_arena).wf(),
        old(order_arena).chunks@.len() <= 65536,
        forall|c: int| 0 <= c < old(order_arena).chunks@.len() ==> (#[trigger] old(order_arena).chunks@[c]).total_spec() < 65536,
        forall|k: u64| #[trigger] map@.contains_key(k) ==> chunks_ok(*old(order_arena), map@[k].chunk_ids@),
        forall|k: u64, t: int, j: int|
            map@.contains_key(k) && 0 <= t < map@[k].chunk_ids@.len() && #[trigger] old(order_arena).chunks@[map@[k].chunk_ids@[t] as int].data_at(j) is Some
                ==> old(order_arena).chunks@[map@[k].chunk_ids@[t] as int].data_at(j)->0.id == (ArenaId {
                chunk_id: map@[k].chunk_ids@[t] as u16,
                slot_id: j as u16,
            }),
        forall|k1: u64, k2: u64, i: int|
            k1 != k2 && map@.contains_key(k1) && map@.contains_key(k2) && #[trigger] map_levels(map@, old(order_arena).chunks@)[k1].contains(i)
                ==> !#[trigger] map_levels(map@, old(order_arena).chunks@)[k2].contains(i),
    ensures
        ({
            let q = eligible_queue(map_levels(map@, old(order_arena).chunks@), bound);
            let a = amounts_in(*old(order_arena), q);
            &&& left == fill_left(a, amount as nat)
            &&& filled_in(*old(order_arena), *final(order_arena), q, fill_amounts(a, amount as nat))
            &&& id_seq(final(filled)@) == id_seq(old(filled)@) + q.take(fill_count(a, amount as nat) as int)
        }),
{
    let ghost o0 = *order_arena;
    let ghost levels = map_levels(map@, o0.chunks@);
    let ghost buf0 = filled@;
    let ks = keys_upto_u64(map, bound);
    let ghost ksq = ks@;
    proof {
        let up = levels_upto(levels, bound);
        assert forall|k: u64| up.dom().contains(k) <==> ksq.contains(k) by {
            if ksq.contains(k) {
                let i = choose|i: int| 0 <= i < ksq.len() && ksq[i] == k;
                assert(map@.contains_key(ksq[i]));
            }
        }
        lemma_sorted_keys_is(ksq, up.dom());
        assert(ksq.map_values(|k: u64| up[k]) =~= ksq.map_values(|k: u64| levels[k]));
        assert(eligible_queue(levels, bound) == queue_of(levels, ksq));
        assert(ksq.take(0) =~= Seq::<u64>::empty());
        assert(queue_of(levels, ksq.take(0)) =~= Seq::<int>::empty()) by {
            assert(ksq.take(0).map_values(|k: u64| levels[k]) =~= Seq::<Seq<int>>::empty());
        }
        let q0 = queue_of(levels, ksq.take(0));
        assert(amounts_in(o0, q0) =~= Seq::<nat>::empty());
        assert(fill_amounts(amounts_in(o0, q0), amount as nat) =~= Seq::<nat>::empty());
        assert(q0.take(0) =~= Seq::<int>::empty());
        assert(id_seq(buf0) + q0.take(0) =~= id_seq(buf0));
        assert forall|c: int| 0 <= c < o0.chunks@.len() implies {
            &&& (#[trigger] order_arena.chunks@[c]).order() == o0.chunks@[c].order()
            &&& order_arena.chunks@[c].free_list() == o0.chunks@[c].free_list()
            &&& order_arena.chunks@[c].total_spec() == o0.chunks@[c].total_spec()
        } by {}
        // Each level's orders are distinct, present, and record their position.
        assert forall|k: u64, t: int| levels.contains_key(k) && 0 <= t < levels[k].len() implies {
            &&& arena_at(o0, #[trigger] levels[k][t]) is Some
            &&& arena_at(o0, levels[k][t])->0.id == arena_id_of(levels[k][t])
        } by {
            let cs = map@[k].chunk_ids@;
            assert forall|c: int| 0 <= c < o0.chunks@.len() implies (#[trigger] o0.chunks@[c]).wf() && o0.chunks@[c].total_spec() <= 65536 by {}
            lemma_level_seq(o0.chunks@, cs);
            let x = levels[k][t];
            assert(levels[k].contains(x));
            let c = x / 65536;
            let j = x % 65536;
            let tc = choose|tc: int| 0 <= tc < cs.len() && cs[tc] == c as usize;
            assert(o0.chunks@[cs[tc] as int].data_at(j) is Some);
            assert(arena_id_of(x) == ArenaId { chunk_id: c as u16, slot_id: j as u16 });
        }
    }
    let mut remaining = amount;
    let mut m: usize = 0;
    while m < ks.len() && remaining > 0
        invariant
            o0 == *old(order_arena),
            o0.wf(),
            o0.chunks@.len() <= 65536,
            forall|c: int| 0 <= c < o0.chunks@.len() ==> (#[trigger] o0.chunks@[c]).total_spec() < 65536,
            buf0 == old(filled)@,
            levels == map_levels(map@, o0.chunks@),
            ksq == ks@,
            forall|i: int| 0 <= i < ksq.len() ==> map@.contains_key(#[trigger] ksq[i]),
            forall|i: int, j: int| 0 <= i < j < ksq.len() ==> ksq[i] < ksq[j],
            forall|k: u64| #[trigger] map@.contains_key(k) ==> chunks_ok(o0, map@[k].chunk_ids@),
            forall|k: u64, t: int, j: int|
                map@.contains_key(k) && 0 <= t < map@[k].chunk_ids@.len() && #[trigger] o0.chunks@[map@[k].chunk_ids@[t] as int].data_at(j) is Some
                    ==> o0.chunks@[map@[k].chunk_ids@[t] as int].data_at(j)->0.id == (ArenaId {
                    chunk_id: map@[k].chunk_ids@[t] as u16,
                    slot_id: j as u16,
                }),
            forall|k: u64, t: int| levels.contains_key(k) && 0 <= t < levels[k].len() ==> {
                &&& arena_at(o0, #[trigger] levels[k][t]) is Some
                &&& arena_at(o0, levels[k][t])->0.id == arena_id_of(levels[k][t])
            },
            forall|k1: u64, k2: u64, i: int|
                k1 != k2 && map@.contains_key(k1) && map@.contains_key(k2) && #[trigger] levels[k1].contains(i)
                    ==> !#[trigger] levels[k2].contains(i),
            0 <= m <= ksq.len(),
            ({
                let qm = queue_of(levels, ksq.take(m as int));
                let am = amounts_in(o0, qm);
                &&& remaining == fill_left(am, amount as nat)
                &&& filled_in(o0, *order_arena, qm, fill_amounts(am, amount as nat))
                &&& id_seq(filled@) == id_seq(buf0) + qm.take(fill_count(am, amount as nat) as int)
                &&& remaining > 0 ==> fill_count(am, amount as nat) == qm.len()
            }),
        decreases ksq.len() - m,
    {
        let key = ks[m];
        let lv = map.get(&key).unwrap();
        let ghost o1 = *order_arena;
        let ghost qm = queue_of(levels, ksq.take(m as int));
        let ghost am = amounts_in(o0, qm);
        let ghost f1 = filled@;
        let ghost cs = lv.chunk_ids@;
        proof {
            assert(map@.contains_key(key));
            assert(chunks_ok(o0, cs));
            lemma_level_seq_same(o0.chunks@, o1.chunks@, cs);
            assert forall|c: int| 0 <= c < o1.chunks@.len() implies (#[trigger] o1.chunks@[c]).total_spec() < 65536 by {
                assert(o1.chunks@[c].total_spec() == o0.chunks@[c].total_spec());
            }
            assert forall|t: int, j: int|
                0 <= t < cs.len() && #[trigger] o1.chunks@[cs[t] as int].data_at(j) is Some implies o1.chunks@[cs[t] as int].data_at(j)->0.id == (ArenaId {
                chunk_id: cs[t] as u16,
                slot_id: j as u16,
            }) by {
                lemma_fill_keeps_ids(o0, o1, qm, fill_amounts(am, amount as nat), cs[t] as int, j);
                assert(o0.chunks@[map@[key].chunk_ids@[t] as int].data_at(j) is Some);
            }
        }
        let ids = level_order_ids(lv, order_arena);
        let ghost lq = id_seq(ids@);
        proof {
            assert(lq == levels[key]);
            assert forall|c: int| 0 <= c < o0.chunks@.len() implies (#[trigger] o0.chunks@[c]).wf() && o0.chunks@[c].total_spec() <= 65536 by {}
            lemma_level_seq(o0.chunks@, cs);
            assert forall|i: int| #[trigger] lq.contains(i) implies !qm.contains(i) by {
                if qm.contains(i) {
                    lemma_queue_contains(levels, ksq.take(m as int), i);
                    let j = choose|j: int| 0 <= j < m && #[trigger] levels[ksq.take(m as int)[j]].contains(i);
                    assert(ksq.take(m as int)[j] == ksq[j]);
                    assert(ksq[j] < ksq[m as int]);
                }
            }
            assert forall|u: int| 0 <= u < lq.len() implies #[trigger] arena_at(o1, lq[u]) == arena_at(o0, lq[u]) by {
                assert(lq.contains(lq[u]));
            }
            assert forall|t: int| 0 <= t < ids@.len() implies arena_at(o1, #[trigger] id_seq(ids@)[t]) is Some by {
                assert(arena_at(o1, lq[t]) == arena_at(o0, lq[t]));
                assert(arena_at(o0, levels[key][t]) is Some);
            }
            assert forall|t: int| 0 <= t < ids@.len() implies arena_at(o1, #[trigger] id_seq(ids@)[t])->0.id == ids@[t] by {
                assert(arena_at(o1, lq[t]) == arena_at(o0, lq[t]));
                assert(arena_at(o0, levels[key][t])->0.id == arena_id_of(levels[key][t]));
                lemma_arena_index(ids@[t]);
            }
            assert(amounts_in(o1, lq) =~= amounts_in(o0, lq));
        }
        let ghost l1 = remaining as nat;
        remaining = fill_ids(&ids, order_arena, remaining, filled);
        proof {
            let o2 = *order_arena;
            let al = amounts_in(o0, lq);
            let qm1 = queue_of(levels, ksq.take(m + 1));
            assert(ksq.take(m + 1) =~= ksq.take(m as int).push(key));
            lemma_queue_snoc(levels, ksq.take(m as int), key);
            assert(qm1 == qm + lq);
            assert(amounts_in(o0, qm1) =~= am + al);
            lemma_fill_split(am, al, amount as nat);
            let fam = fill_amounts(am, amount as nat);
            let fal = fill_amounts(al, l1);
            let fa1 = fill_amounts(am + al, amount as nat);
            assert(fa1 == fam + fal);
            assert(fam.len() == qm.len());
            lemma_fill_split(al, Seq::<nat>::empty(), l1);
            assert forall|u: int| 0 <= u < qm1.len() implies #[trigger] arena_at(o2, qm1[u]) == Some(
                with_amount(arena_at(o0, qm1[u])->0, fa1[u]),
            ) by {
                if u < qm.len() {
                    assert(qm1[u] == qm[u]);
                    assert(qm.contains(qm[u]));
                    assert(!lq.contains(qm[u]));
                    assert(arena_at(o1, qm[u]) == Some(with_amount(arena_at(o0, qm[u])->0, fam[u])));
                    assert(arena_at(o2, qm[u]) == arena_at(o1, qm[u]));
                    assert(fa1[u] == fam[u]);
                } else {
                    let v = u - qm.len();
                    assert(qm1[u] == lq[v]);
                    assert(lq.contains(lq[v]));
                    assert(arena_at(o1, lq[v]) == arena_at(o0, lq[v]));
                    assert(fa1[u] == fal[v]);
                }
            }
            assert forall|i: int| !qm1.contains(i) implies #[trigger] arena_at(o2, i) == arena_at(o0, i) by {
                if qm.contains(i) {
                    let u = choose|u: int| 0 <= u < qm.len() && qm[u] == i;
                    assert(qm1[u] == i);
                }
                if lq.contains(i) {
                    let v = choose|v: int| 0 <= v < lq.len() && lq[v] == i;
                    assert(qm1[qm.len() + v] == i);
                }
            }
            assert forall|c: int| 0 <= c < o0.chunks@.len() implies {
                &&& (#[trigger] o2.chunks@[c]).order() == o0.chunks@[c].order()
                &&& o2.chunks@[c].free_list() == o0.chunks@[c].free_list()
                &&& o2.chunks@[c].total_spec() == o0.chunks@[c].total_spec()
            } by {
                assert(o1.chunks@[c].order() == o0.chunks@[c].order());
            }
            let c0 = fill_count(am, amount as nat);
            assert(c0 == qm.len());
            let cl = fill_count(al, l1);
            assert(fill_count(am + al, amount as nat) == qm.len() + cl);
            assert(qm1.take((qm.len() + cl) as int) =~= qm + lq.take(cl as int));
            assert(qm.take(c0 as int) =~= qm);
            assert(id_seq(filled@) =~= id_seq(buf0) + qm1.take(fill_count(am + al, amount as nat) as int));
        }
        m = m + 1;
    }
    proof {
        let q = queue_of(levels, ksq);
        let qm = queue_of(levels, ksq.take(m as int));
        let am = amounts_in(o0, qm);
        if m < ksq.len() {
            assert(remaining == 0);
            let qr = queue_of(levels, ksq.skip(m as int));
            lemma_queue_take(levels, ksq, m as int);
            let ar = amounts_in(o0, qr);
            assert(amounts_in(o0, q) =~= am + ar);
            lemma_fill_split(am, ar, amount as nat);
            lemma_fill_zero(ar);
            let fa = fill_amounts(am + ar, amount as nat);
            assert forall|u: int| 0 <= u < q.len() implies #[trigger] arena_at(*order_arena, q[u]) == Some(
                with_amount(arena_at(o0, q[u])->0, fa[u]),
            ) by {
                if u < qm.len() {
                    assert(q[u] == qm[u]);
                } else {
                    let v = u - qm.len();
                    let x = qr[v];
                    assert(q[u] == x);
                    assert(fa[u] == ar[v]);
                    assert(qr.contains(x));
                    lemma_queue_contains(levels, ksq.skip(m as int), x);
                    let j = choose|j: int| 0 <= j < ksq.len() - m && #[trigger] levels[ksq.skip(m as int)[j]].contains(x);
                    let k = ksq[m + j];
                    assert(ksq.skip(m as int)[j] == k);
                    let t = choose|t: int| 0 <= t < levels[k].len() && levels[k][t] == x;
                    assert(arena_at(o0, levels[k][t]) is Some);
                    assert(!qm.contains(x)) by {
                        if qm.contains(x) {
                            lemma_queue_contains(levels, ksq.take(m as int), x);
                            let j2 = choose|j2: int| 0 <= j2 < m && #[trigger] levels[ksq.take(m as int)[j2]].contains(x);
                            assert(ksq.take(m as int)[j2] == ksq[j2]);
                            assert(ksq[j2] < ksq[m + j]);
                        }
                    }
                    assert(arena_at(*order_arena, x) == arena_at(o0, x));
                }
            }
            assert forall|i: int| !q.contains(i) implies #[trigger] arena_at(*order_arena, i) == arena_at(o0, i) by {
                if qm.contains(i) {
                    let u = choose|u: int| 0 <= u < qm.len() && qm[u] == i;
                    assert(q[u] == i);
                }
            }
            let c0 = fill_count(am, amount as nat);
            assert(fill_count(am + ar, amount as nat) == c0);
            assert(q.take(c0 as int) =~= qm.take(c0 as int));
        } else {
            assert(ksq.take(m as int) =~= ksq);
        }
    }
    remaining
}

impl OrderBook {
    /// How many chunks of the arena no level holds.
    pub closed spec fn free_chunk_count(&self) -> nat {
        self.order_arena.free_chunks@.len()
    }

    /// The book can take another order exactly while a chunk of the arena is
    /// free for a level to claim.
    pub proof fn law_room_while_chunks_free(&self)
        ensures
            self.can_place() <==> self.free_chunk_count() > 0,
    {
    }

    /// Whether one more order can be placed: a chunk of the arena is free.
    pub fn has_room(&self) -> (r: bool)
        ensures
            r == self.can_place(),
    {
        self.order_arena.free_chunks.len() > 0
    }
}

impl OrderBookExt for OrderBook {
    type OrderId = ArenaId;
    type Order = LimitOrder<ArenaId>;

    open spec fn index_of(id: ArenaId) -> int {
        arena_index(id)
    }

    open spec fn order_view(order: LimitOrder<ArenaId>) -> LimitOrderRequest {
        request_of(order)
    }

    closed spec fn levels(&self, side: OrderSide) -> Map<u64, Seq<int>> {
        self.level_view(side)
    }

    closed spec fn order_at(&self, i: int) -> Option<LimitOrderRequest> {
        if 0 <= i < 65536 * 65536 {
            match self.order_arena.data_at(arena_id_of(i)) {
                Some(o) => Some(request_of(o)),
                None => None,
            }
        } else {
            None
        }
    }

    closed spec fn order_count(&self) -> nat {
        occupied_total(self.chunks())
    }

    closed spec fn wf(&self) -> bool {
        &&& self.arena_ok()
        &&& forall|s: OrderSide, k: u64| #[trigger] self.side_map(s).contains_key(k) ==> self.level_ok(s, k)
        &&& self.owners_ok()
        &&& self.slots_ok()
    }

    /// A free chunk must be left for a level to claim.
    closed spec fn can_place(&self) -> bool {
        self.order_arena.free_chunks@.len() > 0
    }

    /// The slot of an existing chunk is read without a bounds check.
    closed spec fn can_cancel(&self, order_id: ArenaId) -> bool {
        (order_id.chunk_id as int) < self.chunks().len() ==> (order_id.slot_id as int) < self.chunks()[order_id.chunk_id as int].total_spec()
    }

    fn new() -> (book: Self)
        ensures
            book.free_chunk_count() == 4096,
    {
        let book = Self {
            bids: BTreeMap::new(),
            asks: BTreeMap::new(),
            order_arena: SlotArena::with_capacity(4096, 1024),
        };
        proof {
            assert(book.levels(OrderSide::Bid) =~= Map::<u64, Seq<int>>::empty());
            assert(book.levels(OrderSide::Ask) =~= Map::<u64, Seq<int>>::empty());
            let a = book.order_arena;
            assert forall|c: int, j: int| 0 <= c < book.chunks().len() && #[trigger] book.chunks()[c].data_at(j) is Some implies false by {
                a.chunks@[c].lemma_occupied();
            }
            assert forall|t: int| 0 <= t < a.free_chunks@.len() implies a.chunks@[#[trigger] a.free_chunks@[t] as int].order().len() == 0 by {
                assert(a.free_chunks@[t] == t as usize);
            }
            assert forall|i: int| #[trigger] book.order_at(i) is None by {
                if 0 <= i < 65536 * 65536 {
                    let ai = arena_id_of(i);
                    if (ai.chunk_id as int) < a.chunks@.len() {
                        a.chunks@[ai.chunk_id as int].lemma_occupied();
                    }
                }
            }
            assert(occupied_total(book.chunks()) == 0) by {
                let ch = book.chunks();
                assert forall|n: int| 0 <= n <= ch.len() implies occupied_total(#[trigger] ch.take(n)) == 0 by {
                    lemma_zero_prefix(ch, n);
                }
                assert(ch.take(ch.len() as int) =~= ch);
            }
        }
        book
    }

    fn place_order(&mut self, request: LimitOrderRequest) -> (id: ArenaId)
        ensures
            final(self).free_chunk_count() <= old(self).free_chunk_count(),
            old(self).free_chunk_count() <= final(self).free_chunk_count() + 1,
    {
        let ghost b0 = *self;
        let LimitOrderRequest { side, limit: price, amount } = request;
        let new_order = LimitOrder::new(ArenaId::new(0, 0), side, price, amount);
        let key = key_of(side, price);
        proof {
            let a0 = b0.order_arena;
            let f = a0.free_chunks@.last();
            assert(a0.free_chunks@[a0.free_chunks@.len() - 1] == f);
            if b0.side_map(side).contains_key(key) {
                assert(b0.level_ok(side, key));
                let cs = b0.side_map(side)[key].chunk_ids@;
                if cs.contains(f) {
                    let t = choose|t: int| 0 <= t < cs.len() && cs[t] == f;
                    assert(!a0.free_chunks@.contains(cs[t]));
                }
            }
        }
        let new_order_id = match side {
            OrderSide::Bid => place_in(&mut self.bids, &mut self.order_arena, key, price, new_order),
            OrderSide::Ask => place_in(&mut self.asks, &mut self.order_arena, key, price, new_order),
        };
        let ghost a_mid = self.order_arena;
        let inserted_order = self.order_arena.get_unchecked_mut(new_order_id);
        inserted_order.id = new_order_id;
        proof {
            let cs = self.side_map(side)[key].chunk_ids@;
            assert(chunk_seqs(self.order_arena.chunks@, cs) =~= chunk_seqs(a_mid.chunks@, cs)) by {
                assert forall|t: int| 0 <= t < cs.len() implies chunk_seqs(self.order_arena.chunks@, cs)[t] == chunk_seqs(a_mid.chunks@, cs)[t] by {
                    if cs[t] as int != new_order_id.chunk_id as int {
                        assert(self.order_arena.chunks@[cs[t] as int] == a_mid.chunks@[cs[t] as int]);
                    }
                }
            }
            lemma_placed(b0, *self, request, new_order_id);
        }
        new_order_id
    }

    fn cancel_order(&mut self, order_id: ArenaId)
        ensures
            final(self).free_chunk_count() >= old(self).free_chunk_count(),
    {
        let ghost b0 = *self;
        let (price, side) = match self.order_arena.get(order_id) {
            Some(order) => (order.limit, order.side),
            None => {
                return ;
            },
        };
        let key = key_of(side, price);
        proof {
            lemma_arena_index(order_id);
            assert(b0.slot_ok(order_id.chunk_id as int, order_id.slot_id as int));
            assert(b0.level_ok(side, key));
            let cs0 = b0.side_map(side)[key].chunk_ids@;
            let t0 = choose|t0: int| 0 <= t0 < cs0.len() && cs0[t0] == order_id.chunk_id as usize;
            assert(!b0.order_arena.free_chunks@.contains(cs0[t0]));
        }
        let level_is_empty = match side {
            OrderSide::Bid => remove_from(&mut self.bids, &mut self.order_arena, key, order_id),
            OrderSide::Ask => remove_from(&mut self.asks, &mut self.order_arena, key, order_id),
        };
        let ghost b_mid = *self;
        if level_is_empty {
            match side {
                OrderSide::Bid => {
                    self.bids.remove(&key);
                },
                OrderSide::Ask => {
                    self.asks.remove(&key);
                },
            }
        }
        proof {
            let c = order_id.chunk_id as int;
            let cs0 = b0.side_map(side)[key].chunk_ids@;
            let cs1 = b_mid.side_map(side)[key].chunk_ids@;
            let a1 = self.order_arena;
            let emptied = a1.chunks@[c].order().len() == 0;
            assert(b0.level_ok(side, key));
            if level_is_empty {
                assert(self.side_map(side) =~= b0.side_map(side).remove(key));
            } else {
                assert(self.side_map(side) =~= b0.side_map(side).insert(key, self.side_map(side)[key]));
            }
            assert forall|u: usize| #[trigger] cs0.contains(u) && u as int != c implies !level_is_empty by {
                let t0 = choose|t0: int| 0 <= t0 < cs0.len() && cs0[t0] == u;
                assert(cs1.contains(u));
                let t1 = choose|t1: int| 0 <= t1 < cs1.len() && cs1[t1] == u;
                assert(a1.chunks@[cs1[t1] as int] == b0.order_arena.chunks@[cs0[t0] as int]);
            }
            if emptied && level_is_empty {
                assert(cs0.len() == 1) by {
                    if cs0.len() != 1 {
                        let t0 = choose|t0: int| 0 <= t0 < cs0.len() && cs0[t0] == c as usize;
                        let t2 = if t0 == 0 { 1int } else { 0int };
                        assert(cs0[t2] != cs0[t0]);
                        assert(cs0.contains(cs0[t2]));
                    }
                }
            }
            if level_is_empty && !emptied {
                assert(cs1.contains(c as usize));
                let t1 = choose|t1: int| 0 <= t1 < cs1.len() && cs1[t1] == c as usize;
                assert(a1.chunks@[cs1[t1] as int].order().len() == 0);
            }
            if !level_is_empty {
                let t = choose|t: int| 0 <= t < cs1.len() && !((#[trigger] a1.chunks@[cs1[t] as int]).order().len() == 0);
                assert(cs1.contains(cs1[t]));
            }
            lemma_removed(b0, *self, order_id, level_is_empty);
        }
    }

    proof fn lemma_levels_facts(&self, side: OrderSide) {
        let m = self.side_map(side);
        let l = self.levels(side);
        assert(l.dom() =~= m.dom());
        assert forall|k: u64| #[trigger] l.contains_key(k) implies l[k].len() > 0 && l[k].no_duplicates() by {
            assert(self.level_ok(side, k));
            let cs = m[k].chunk_ids@;
            lemma_level_seq(self.chunks(), cs);
            let ch = self.chunks()[cs[0] as int];
            ch.lemma_occupied();
            let sl = ch.order()[0];
            let x = cs[0] * 65536 + sl;
            assert(0 <= sl < 65536);
            assert(x / 65536 == cs[0] as int && x % 65536 == sl);
            assert(cs.contains(cs[0]));
            assert(ch.data_at(sl) is Some);
            assert(l[k].contains(x));
        }
        assert forall|k: u64, t: int| l.contains_key(k) && 0 <= t < l[k].len() implies {
            let o = self.order_at(#[trigger] l[k][t]);
            &&& o is Some
            &&& o->0.side == side
            &&& book_key(side, o->0.limit) == k
        } by {
            assert(self.level_ok(side, k));
            let cs = m[k].chunk_ids@;
            lemma_level_seq(self.chunks(), cs);
            let x = l[k][t];
            assert(l[k].contains(x));
            let c = x / 65536;
            let j = x % 65536;
            assert(self.slot_ok(c, j));
            let o = self.chunks()[c].data_at(j)->0;
            let k2 = book_key(o.side, o.limit);
            let t0 = choose|t0: int| 0 <= t0 < cs.len() && cs[t0] == c as usize;
            let cs2 = self.side_map(o.side)[k2].chunk_ids@;
            let t2 = choose|t2: int| 0 <= t2 < cs2.len() && cs2[t2] == c as usize;
            assert(self.side_map(side)[k].chunk_ids@[t0] == self.side_map(o.side)[k2].chunk_ids@[t2]);
        }
        assert forall|k1: u64, k2: u64, i: int|
            k1 != k2 && l.contains_key(k1) && l.contains_key(k2) && #[trigger] l[k1].contains(i) implies !#[trigger] l[k2].contains(
            i) by {
            assert(self.level_ok(side, k1));
            assert(self.level_ok(side, k2));
            lemma_level_seq(self.chunks(), m[k1].chunk_ids@);
            lemma_level_seq(self.chunks(), m[k2].chunk_ids@);
            if l[k2].contains(i) {
                let c = (i / 65536) as usize;
                let cs1 = m[k1].chunk_ids@;
                let cs2 = m[k2].chunk_ids@;
                let t1 = choose|t1: int| 0 <= t1 < cs1.len() && cs1[t1] == c;
                let t2 = choose|t2: int| 0 <= t2 < cs2.len() && cs2[t2] == c;
                assert(self.side_map(side)[k1].chunk_ids@[t1] == self.side_map(side)[k2].chunk_ids@[t2]);
            }
        }
    }

    proof fn lemma_can_cancel(&self, order_id: ArenaId) {
        lemma_arena_index(order_id);
        let c = order_id.chunk_id as int;
        self.chunks()[c].lemma_occupied();
        assert(self.chunks()[c].order().contains(order_id.slot_id as int));
    }

    /// An identifier past its chunk's slots names no order.
    fn get_order(&self, order_id: ArenaId) -> (r: Option<&LimitOrder<ArenaId>>)
        ensures
            r matches Some(o) ==> o.id == order_id,
    {
        proof {
            lemma_arena_index(order_id);
        }
        let c = order_id.chunk_id as usize;
        if c < self.order_arena.chunks.len() && (order_id.slot_id as usize) >= self.order_arena.chunks[c].total() {
            proof {
                self.chunks()[c as int].lemma_occupied();
                if self.chunks()[c as int].data_at(order_id.slot_id as int) is Some {
                    assert(self.chunks()[c as int].order().contains(order_id.slot_id as int));
                }
            }
            return None;
        }
        self.order_arena.get(order_id)
    }

    fn capacity(&self) -> (n: usize) {
        let ghost ch = self.chunks();
        proof {
            assert forall|c: int| 0 <= c < ch.len() implies (#[trigger] ch[c]).order().len() <= 65535 by {
                ch[c].lemma_occupied();
            }
            assert(ch.take(0) =~= Seq::<SlotMapOptimized<LimitOrder<ArenaId>>>::empty());
        }
        let mut capacity: usize = 0;
        let mut i: usize = 0;
        while i < self.order_arena.chunks.len()
            invariant
                ch == self.chunks(),
                ch == self.order_arena.chunks@,
                ch.len() <= 65536,
                forall|c: int| 0 <= c < ch.len() ==> (#[trigger] ch[c]).wf() && ch[c].order().len() <= 65535,
                0 <= i <= ch.len(),
                capacity == occupied_total(ch.take(i as int)),
            decreases ch.len() - i,
        {
            proof {
                assert(ch.take(i + 1).drop_last() =~= ch.take(i as int));
                assert(ch.take(i + 1).last() == ch[i as int]);
                lemma_occupied_total_bound(ch.take(i + 1));
            }
            capacity = capacity + self.order_arena.chunks[i].capacity();
            i = i + 1;
        }
        proof {
            assert(ch.take(i as int) =~= ch);
        }
        capacity
    }
}

/// Filling amounts keeps the book well formed and its levels, and changes
/// the orders as `filled_in` says.
#[verifier::rlimit(40)]
proof fn lemma_book_filled(b0: OrderBook, b1: OrderBook, q: Seq<int>, am: Seq<nat>)
    requires
        b0.wf(),
        b1.bids == b0.bids,
        b1.asks == b0.asks,
        filled_in(b0.order_arena, b1.order_arena, q, am),
    ensures
        b1.wf(),
        b1.levels(OrderSide::Bid) == b0.levels(OrderSide::Bid),
        b1.levels(OrderSide::Ask) == b0.levels(OrderSide::Ask),
        b0.can_place() ==> b1.can_place(),
        forall|i: int| #[trigger] b1.order_at(i) == (match arena_at(b1.order_arena, i) {
            Some(o) => Some(request_of(o)),
            None => None,
        }),
        forall|i: int| #[trigger] b0.order_at(i) == (match arena_at(b0.order_arena, i) {
            Some(o) => Some(request_of(o)),
            None => None,
        }),
{
    let a0 = b0.order_arena;
    let a1 = b1.order_arena;
    assert(b1.arena_ok()) by {
        assert forall|c: int| 0 <= c < a1.chunks@.len() implies (#[trigger] a1.chunks@[c]).total_spec() <= a1.chunk_size by {
            assert(a1.chunks@[c].total_spec() == a0.chunks@[c].total_spec());
        }
        assert forall|t: int| 0 <= t < a1.free_chunks@.len() implies a1.chunks@[#[trigger] a1.free_chunks@[t] as int].order().len() == 0 by {
            assert(a1.chunks@[a0.free_chunks@[t] as int].order() == a0.chunks@[a0.free_chunks@[t] as int].order());
        }
    }
    assert forall|s: OrderSide, k: u64| #[trigger] b1.side_map(s).contains_key(k) implies b1.level_ok(s, k) by {
        assert(b0.level_ok(s, k));
        let cs = b1.side_map(s)[k].chunk_ids@;
        assert forall|t: int| 0 <= t < cs.len() implies a1.chunks@[#[trigger] cs[t] as int].order().len() > 0 by {
            assert(a1.chunks@[cs[t] as int].order() == a0.chunks@[cs[t] as int].order());
        }
    }
    assert(b1.slots_ok()) by {
        assert forall|c: int, j: int| 0 <= c < b1.chunks().len() && #[trigger] b1.chunks()[c].data_at(j) is Some implies b1.slot_ok(c, j) by {
            lemma_fill_keeps_ids(a0, a1, q, am, c, j);
            assert(b0.slot_ok(c, j));
            if 0 <= j < 65536 {
                let i = c * 65536 + j;
                assert(arena_id_of(i) == ArenaId { chunk_id: c as u16, slot_id: j as u16 });
                assert(arena_at(a1, i) == a1.chunks@[c].data_at(j));
                assert(arena_at(a0, i) == a0.chunks@[c].data_at(j));
                if q.contains(i) {
                    let u = choose|u: int| 0 <= u < q.len() && q[u] == i;
                    assert(arena_at(a1, q[u]) == Some(with_amount(arena_at(a0, q[u])->0, am[u])));
                }
            } else {
                a0.chunks@[c].lemma_occupied();
            }
        }
    }
    assert forall|side: OrderSide| #[trigger] b1.levels(side) == b0.levels(side) by {
        assert forall|k: u64| #[trigger] b1.side_map(side).contains_key(k) implies b1.levels(side)[k] == b0.levels(side)[k] by {
            let cs = b1.side_map(side)[k].chunk_ids@;
            assert(b0.level_ok(side, k));
            lemma_level_seq_same(a0.chunks@, a1.chunks@, cs);
        }
        assert(b1.levels(side) =~= b0.levels(side));
    }
    assert(b1.levels(OrderSide::Bid) == b0.levels(OrderSide::Bid));
    assert(b1.levels(OrderSide::Ask) == b0.levels(OrderSide::Ask));
}

/// A matcher over a book, with a buffer for the identifiers of the orders
/// a match fills completely.
pub struct OrderMatcher {
    pub order_book: OrderBook,
    cancelation_buffer: Vec<ArenaId>,
}

impl OrderMatcher {
    /// Cancels, one by one, the orders in the buffer, which are the first
    /// orders of the queue of `side`.
    fn cancel_buffered(&mut self, Ghost(side): Ghost<OrderSide>)
        requires
            old(self).order_book.wf(),
            old(self).cancelation_buffer@.len() <= side_queue(old(self).order_book.levels(side)).len(),
            forall|u: int|
                0 <= u < old(self).cancelation_buffer@.len() ==> OrderBook::index_of(#[trigger] old(self).cancelation_buffer@[u])
                    == side_queue(old(self).order_book.levels(side))[u],
        ensures
            final(self).order_book.free_chunk_count() >= old(self).order_book.free_chunk_count(),
            final(self).order_book.wf(),
            final(self).cancelation_buffer == old(self).cancelation_buffer,
            book_cleaned(old(self).order_book, side, old(self).cancelation_buffer@.len(), final(self).order_book),
    {
        let ghost b0 = self.order_book;
        let ghost s = side_queue(b0.levels(side));
        let ghost n = self.cancelation_buffer@.len();
        let ghost fc0 = self.order_book.free_chunk_count();
        proof {
            assert(s.skip(0) =~= s);
        }
        let len = self.cancelation_buffer.len();
        let mut i: usize = 0;
        while i < len
            invariant
                self.order_book.wf(),
                self.cancelation_buffer == old(self).cancelation_buffer,
                len == n,
                s == side_queue(b0.levels(side)),
                n == self.cancelation_buffer@.len(),
                n <= s.len(),
                forall|u: int| 0 <= u < n ==> OrderBook::index_of(#[trigger] self.cancelation_buffer@[u]) == s[u],
                0 <= i <= n,
                side_queue(self.order_book.levels(side)) == s.skip(i as int),
                self.order_book.levels(side.opposite()) == b0.levels(side.opposite()),
                forall|u: int| 0 <= u < i ==> #[trigger] self.order_book.order_at(s[u]) is None,
                forall|j: int| !s.take(i as int).contains(j) ==> #[trigger] self.order_book.order_at(j) == b0.order_at(j),
                b0.can_place() ==> self.order_book.can_place(),
                self.order_book.free_chunk_count() >= fc0,
            decreases n - i,
        {
            let id = self.cancelation_buffer[i];
            let ghost b1 = self.order_book;
            proof {
                assert(OrderBook::index_of(id) == s[i as int]);
                assert(s.skip(i as int)[0] == s[i as int]);
                assert(side_queue(b1.levels(side))[0] == s[i as int]);
                assert(side_queue(b1.levels(side)).contains(s[i as int]));
                lemma_queue_member(b1, side, s[i as int]);
                b1.lemma_can_cancel(id);
            }
            self.order_book.cancel_order(id);
            proof {
                let b2 = self.order_book;
                lemma_cancel_head(b1, b2, side);
                assert(s.skip(i as int).drop_first() =~= s.skip(i + 1));
                let x = s[i as int];
                assert forall|j: int| !s.take(i + 1).contains(j) implies #[trigger] b2.order_at(j) == b0.order_at(j) by {
                    assert(s.take(i + 1)[i as int] == x);
                    if s.take(i as int).contains(j) {
                        let u = choose|u: int| 0 <= u < i && s.take(i as int)[u] == j;
                        assert(s.take(i + 1)[u] == j);
                    }
                }
            }
            i = i + 1;
        }
    }
}

impl OrderMatcher {
    /// The matcher can take another order exactly while a chunk of its book's
    /// arena is free.
    pub proof fn law_room_while_chunks_free(&self)
        ensures
            self.can_place() <==> self.book().free_chunk_count() > 0,
    {
        self.order_book.law_room_while_chunks_free();
    }
}

impl OrderMatcherExt for OrderMatcher {
    type OrderId = ArenaId;
    type OrderBook = OrderBook;

    fn has_room(&self) -> (r: bool) {
        self.order_book.has_room()
    }

    closed spec fn book(&self) -> OrderBook {
        self.order_book
    }

    /// The buffer is empty between operations.
    closed spec fn wf(&self) -> bool {
        &&& self.order_book.wf()
        &&& self.cancelation_buffer@.len() == 0
    }

    /// The book must be able to take an order.
    closed spec fn can_place(&self) -> bool {
        self.order_book.can_place()
    }

    /// What the book needs of the identifier.
    closed spec fn can_cancel(&self, order_id: ArenaId) -> bool {
        self.order_book.can_cancel(order_id)
    }

    proof fn lemma_wf(&self) {
    }

    fn new() -> (matcher: Self)
        ensures
            matcher.book().free_chunk_count() == 4096,
    {
        Self { order_book: OrderBook::new(), cancelation_buffer: Vec::with_capacity(1024) }
    }

    fn place_order(&mut self, request: LimitOrderRequest) -> (id: ArenaId)
        ensures
            final(self).book().free_chunk_count() <= old(self).book().free_chunk_count(),
            old(self).book().free_chunk_count() <= final(self).book().free_chunk_count() + 1,
    {
        self.order_book.place_order(request)
    }

    fn cancel_order(&mut self, order_id: ArenaId)
        ensures
            final(self).book().free_chunk_count() >= old(self).book().free_chunk_count(),
    {
        self.order_book.cancel_order(order_id);
    }

    fn process_limit_order(&mut self, request: LimitOrderRequest) -> (r: LimitOrderRequest)
        ensures
            final(self).book().free_chunk_count() >= old(self).book().free_chunk_count(),
    {
        let mut request = request;
        let ghost b0 = self.order_book;
        let ghost o = request;
        let other = match request.side {
            OrderSide::Bid => OrderSide::Ask,
            OrderSide::Ask => OrderSide::Bid,
        };
        let bound = key_of(other, request.limit);
        proof {
            assert(other == o.side.opposite());
            let m = b0.side_map(other);
            let a0 = b0.order_arena;
            b0.lemma_levels_facts(other);
            assert(map_levels(m, a0.chunks@) == b0.levels(other));
            assert forall|c: int| 0 <= c < a0.chunks@.len() implies (#[trigger] a0.chunks@[c]).total_spec() < 65536 by {}
            assert forall|k: u64| #[trigger] m.contains_key(k) implies chunks_ok(a0, m[k].chunk_ids@) by {
                assert(b0.level_ok(other, k));
            }
            assert forall|k: u64, t: int, j: int|
                m.contains_key(k) && 0 <= t < m[k].chunk_ids@.len() && #[trigger] a0.chunks@[m[k].chunk_ids@[t] as int].data_at(j) is Some implies a0.chunks@[m[k].chunk_ids@[t] as int].data_at(j)->0.id == (ArenaId {
                chunk_id: m[k].chunk_ids@[t] as u16,
                slot_id: j as u16,
            }) by {
                assert(b0.level_ok(other, k));
                assert(b0.slot_ok(m[k].chunk_ids@[t] as int, j));
            }
        }
        let remaining = match other {
            OrderSide::Bid => fill_side(
                &self.order_book.bids,
                &mut self.order_book.order_arena,
                bound,
                request.amount,
                &mut self.cancelation_buffer,
            ),
            OrderSide::Ask => fill_side(
                &self.order_book.asks,
                &mut self.order_book.order_arena,
                bound,
                request.amount,
                &mut self.cancelation_buffer,
            ),
        };
        let ghost b1 = self.order_book;
        proof {
            let q = book_reach(b0, o);
            let a = book_amounts(b0, q);
            let fa = fill_amounts(a, o.amount as nat);
            assert(q == eligible_queue(map_levels(b0.side_map(other), b0.order_arena.chunks@), bound));
            lemma_eligible_prefix(b0.levels(other), bound);
            assert forall|u: int| 0 <= u < q.len() implies arena_at(b0.order_arena, #[trigger] q[u]) is Some by {
                let s = side_queue(b0.levels(other));
                assert(q[u] == s[u]);
                assert(s.contains(s[u]));
                lemma_queue_member(b0, other, s[u]);
                assert(b0.order_at(q[u]) is Some);
            }
            assert(amounts_in(b0.order_arena, q) =~= a) by {
                assert forall|u: int| 0 <= u < q.len() implies amounts_in(b0.order_arena, q)[u] == a[u] by {
                    assert(b0.order_at(q[u]) is Some);
                }
            }
            lemma_book_filled(b0, b1, q, fa);
            assert forall|t: int| 0 <= t < q.len() implies #[trigger] b1.order_at(q[t]) == Some(
                LimitOrderRequest {
                    side: b0.order_at(q[t])->0.side,
                    limit: b0.order_at(q[t])->0.limit,
                    amount: fa[t] as u64,
                },
            ) by {
                assert(arena_at(b1.order_arena, q[t]) == Some(with_amount(arena_at(b0.order_arena, q[t])->0, fa[t])));
                assert(b1.order_at(q[t]) == Some(request_of(with_amount(arena_at(b0.order_arena, q[t])->0, fa[t]))));
                assert(b0.order_at(q[t]) == Some(request_of(arena_at(b0.order_arena, q[t])->0)));
            }
            assert forall|j: int| !q.contains(j) implies #[trigger] b1.order_at(j) == b0.order_at(j) by {
                assert(arena_at(b1.order_arena, j) == arena_at(b0.order_arena, j));
                assert(b1.order_at(j) == b0.order_at(j));
            }
            assert(book_filled(b0, o, b1));
            let n = fill_count(a, o.amount as nat);
            crate::matching::lemma_fill_split(a, Seq::<nat>::empty(), o.amount as nat);
            assert forall|u: int| 0 <= u < self.cancelation_buffer@.len() implies OrderBook::index_of(
                #[trigger] self.cancelation_buffer@[u],
            ) == side_queue(b1.levels(other))[u] by {
                assert(old(self).cancelation_buffer@.len() == 0);
                assert(id_seq(old(self).cancelation_buffer@) =~= Seq::<int>::empty());
                assert(id_seq(self.cancelation_buffer@) =~= q.take(n as int));
                assert(id_seq(self.cancelation_buffer@)[u] == q.take(n as int)[u]);
                assert(q[u] == side_queue(b0.levels(other))[u]);
            }
            assert(id_seq(self.cancelation_buffer@).len() == n);
        }
        self.cancel_buffered(Ghost(other));
        self.cancelation_buffer.clear();
        proof {
            let a = book_amounts(b0, book_reach(b0, o));
            assert(self.cancelation_buffer@.len() == 0);
            assert(old(self).cancelation_buffer@.len() == 0);
            lemma_sweep_compose(b0, o, b1, self.order_book);
            crate::matching::lemma_fill_left_bound(a, o.amount as nat);
        }
        request.amount = remaining;
        request
    }

    /// The price of the bid level with the highest key, that is the lowest
    /// bid price, if there is a bid.
    fn best_bid(&self) -> (r: Option<usize>)
        ensures
            r is None <==> self.book().levels(OrderSide::Bid).dom().len() == 0,
            r matches Some(p) ==> exists|price: u64| #![trigger book_key(OrderSide::Bid, price)]
                p == price as usize && self.book().levels(OrderSide::Bid).contains_key(book_key(OrderSide::Bid, price))
                    && forall|q: u64| #[trigger] self.book().levels(OrderSide::Bid).contains_key(book_key(OrderSide::Bid, q))
                    ==> price <= q,
    {
        proof {
            assert(self.book().levels(OrderSide::Bid).dom() =~= self.order_book.bids@.dom());
        }
        match last_key_u64(&self.order_book.bids) {
            Some(k) => {
                let level = self.order_book.bids.get(&k).unwrap();
                proof {
                    assert(self.order_book.level_ok(OrderSide::Bid, k));
                }
                if !level.is_empty(&self.order_book.order_arena) {
                    let price = price_of(OrderSide::Bid, k);
                    proof {
                        assert forall|q: u64| #[trigger] self.book().levels(OrderSide::Bid).contains_key(book_key(OrderSide::Bid, q))
                            implies price <= q by {
                            assert(self.order_book.bids@.contains_key(book_key(OrderSide::Bid, q)));
                        }
                    }
                    Some(price as usize)
                } else {
                    proof {
                        let cs = level.chunk_ids@;
                        assert(self.order_book.chunks()[cs[0] as int].order().len() > 0);
                    }
                    None
                }
            },
            None => None,
        }
    }

    /// The lowest ask price, if there is an ask.
    fn best_ask(&self) -> (r: Option<usize>)
        ensures
            r is None <==> self.book().levels(OrderSide::Ask).dom().len() == 0,
            r matches Some(p) ==> exists|price: u64| #![trigger book_key(OrderSide::Ask, price)]
                p == price as usize && self.book().levels(OrderSide::Ask).contains_key(book_key(OrderSide::Ask, price))
                    && forall|q: u64| #[trigger] self.book().levels(OrderSide::Ask).contains_key(book_key(OrderSide::Ask, q))
                    ==> price <= q,
    {
        proof {
            assert(self.book().levels(OrderSide::Ask).dom() =~= self.order_book.asks@.dom());
        }
        match first_key_u64(&self.order_book.asks) {
            Some(k) => {
                let level = self.order_book.asks.get(&k).unwrap();
                proof {
                    assert(self.order_book.level_ok(OrderSide::Ask, k));
                }
                if !level.is_empty(&self.order_book.order_arena) {
                    let price = price_of(OrderSide::Ask, k);
                    proof {
                        assert forall|q: u64| #[trigger] self.book().levels(OrderSide::Ask).contains_key(book_key(OrderSide::Ask, q))
                            implies price <= q by {
                            assert(self.order_book.asks@.contains_key(book_key(OrderSide::Ask, q)));
                        }
                    }
                    Some(price as usize)
                } else {
                    proof {
                        let cs = level.chunk_ids@;
                        assert(self.order_book.chunks()[cs[0] as int].order().len() > 0);
                    }
                    None
                }
            },
            None => None,
        }
    }

    fn total_volume_at(&self, side: OrderSide, price: usize) -> (v: usize) {
        let key = key_of(side, price as u64);
        let found = match side {
            OrderSide::Bid => self.order_book.bids.get(&key),
            OrderSide::Ask => self.order_book.asks.get(&key),
        };
        let level = match found {
            Some(level) => level,
            None => {
                return 0;
            },
        };
        let ghost b = self.order_book;
        let ghost a0 = b.order_arena;
        proof {
            assert(b.level_ok(side, key));
            assert forall|c: int| 0 <= c < a0.chunks@.len() implies (#[trigger] a0.chunks@[c]).total_spec() < 65536 by {}
            assert forall|t: int, j: int|
                0 <= t < level.chunk_ids@.len() && #[trigger] a0.chunks@[level.chunk_ids@[t] as int].data_at(j) is Some implies a0.chunks@[level.chunk_ids@[t] as int].data_at(j)->0.id == (ArenaId {
                chunk_id: level.chunk_ids@[t] as u16,
                slot_id: j as u16,
            }) by {
                assert(b.slot_ok(level.chunk_ids@[t] as int, j));
            }
        }
        let ids = level_order_ids(level, &self.order_book.order_arena);
        let ghost q = id_seq(ids@);
        let ghost a = book_amounts(b, q);
        proof {
            assert(q == b.levels(side)[key]);
            assert forall|c: int| 0 <= c < a0.chunks@.len() implies (#[trigger] a0.chunks@[c]).wf() && a0.chunks@[c].total_spec() <= 65536 by {}
            lemma_level_seq(a0.chunks@, level.chunk_ids@);
            assert(a.take(0) =~= Seq::<nat>::empty());
        }
        let mut total_volume: usize = 0;
        let mut t: usize = 0;
        while t < ids.len()
            invariant
                b == self.order_book,
                a0 == b.order_arena,
                b.wf(),
                q == id_seq(ids@),
                forall|i: int| #[trigger] q.contains(i) <==> {
                    &&& 0 <= i < 65536 * 65536
                    &&& level.chunk_ids@.contains((i / 65536) as usize)
                    &&& a0.chunks@[i / 65536].data_at(i % 65536) is Some
                },
                a == book_amounts(b, q),
                chunks_ok(a0, level.chunk_ids@),
                total(a) <= usize::MAX,
                0 <= t <= ids@.len(),
                total_volume == total(a.take(t as int)),
            decreases ids@.len() - t,
        {
            let id = ids[t];
            proof {
                crate::matching::lemma_total_prefix(a, t + 1);
                assert(a.take(t + 1).drop_last() =~= a.take(t as int));
                lemma_arena_index(id);
                assert(q[t as int] == arena_index(id));
                assert(q.contains(q[t as int]));
                let c = (arena_index(id) / 65536) as usize;
                let tc = choose|tc: int| 0 <= tc < level.chunk_ids@.len() && level.chunk_ids@[tc] == c;
                assert(a0.data_at(id) is Some);
            }
            let amount = self.order_book.order_arena.get_unchecked(id).amount;
            total_volume = total_volume + amount as usize;
            t = t + 1;
        }
        proof {
            assert(a.take(t as int) =~= a);
        }
        total_volume
    }

    fn order_book(&self) -> (r: &OrderBook) {
        &self.order_book
    }
}

/// A run of empty chunks holds no value.
proof fn lemma_zero_prefix<T>(chunks: Seq<SlotMapOptimized<T>>, n: int)
    requires
        0 <= n <= chunks.len(),
        forall|c: int| 0 <= c < chunks.len() ==> (#[trigger] chunks[c]).order() == Seq::<int>::empty(),
    ensures
        occupied_total(chunks.take(n)) == 0,
    decreases n,
{
    if n > 0 {
        lemma_zero_prefix(chunks, n - 1);
        assert(chunks.take(n).drop_last() =~= chunks.take(n - 1));
        assert(chunks.take(n).last() == chunks[n - 1]);
    }
}

/// A mutable reference to element `i` of `v`.
fn vec_index_mut<A>(v: &mut Vec<A>, i: usize) -> (r: &mut A)
    requires
        i < old(v).len(),
    ensures
        *r == old(v)@[i as int],
        final(v)@ == old(v)@.update(i as int, *final(r)),
{
    &mut v[i]
}

} // verus!
