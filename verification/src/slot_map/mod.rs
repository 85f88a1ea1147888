use vstd::prelude::*;

pub mod links;
pub mod optimized;
pub mod standard;

verus! {

/// The raw value that marks a `NonMaxU32` as empty.
pub const NONE_VALUE: u32 = 4294967295u32;

/// An optional slot index packed into a `u32`: `u32::MAX` stands for "none".
#[derive(Debug, Clone, Copy, PartialEq, Eq, Structural)]
pub struct NonMaxU32(pub u32);

impl View for NonMaxU32 {
    type V = Option<int>;

    open spec fn view(&self) -> Option<int> {
        if self.0 == NONE_VALUE {
            None
        } else {
            Some(self.0 as int)
        }
    }
}

impl NonMaxU32 {
    pub fn new_none() -> (r: Self)
        ensures
            r@ is None,
            r.0 == NONE_VALUE,
    {
        Self(NONE_VALUE)
    }

    pub fn is_none(&self) -> (r: bool)
        ensures
            r == (self@ is None),
            r == (self.0 == NONE_VALUE),
    {
        self.0 == NONE_VALUE
    }

    pub fn is_some(&self) -> (r: bool)
        ensures
            r == (self@ is Some),
            r == (self.0 != NONE_VALUE),
    {
        self.0 != NONE_VALUE
    }

    pub fn from(value: u32) -> (r: Self)
        requires
            value < NONE_VALUE,
        ensures
            r.0 == value,
            r@ == Some(value as int),
    {
        Self(value)
    }
}

/// The element that follows position `k` of `s`, if any.
pub open spec fn seq_next(s: Seq<int>, k: int) -> Option<int> {
    if 0 <= k && k + 1 < s.len() {
        Some(s[k + 1])
    } else {
        None
    }
}

/// The element that precedes position `k` of `s`, if any.
pub open spec fn seq_prev(s: Seq<int>, k: int) -> Option<int> {
    if 0 < k && k <= s.len() {
        Some(s[k - 1])
    } else {
        None
    }
}

/// The first element of `s`, if any.
pub open spec fn seq_first(s: Seq<int>) -> Option<int> {
    if s.len() > 0 {
        Some(s[0])
    } else {
        None
    }
}

/// The last element of `s`, if any.
pub open spec fn seq_last(s: Seq<int>) -> Option<int> {
    if s.len() > 0 {
        Some(s[s.len() - 1])
    } else {
        None
    }
}

/// A slot map: values in slots, the occupied slots linked in insertion order,
/// the free slots reused last-in, first-out.
///
/// The contract of each operation is stated here, over the model that every
/// implementation gives: the list of occupied slot indices from head to tail,
/// the list of free slot indices from the free head on, the number of slots,
/// and the value that each slot holds.
pub trait SlotMap: Sized {
    type Id;
    type Data;

    /// The slot index that an identifier names.
    spec fn index_of(id: Self::Id) -> int;

    /// The occupied slot indices in insertion order.
    spec fn order(&self) -> Seq<int>;

    /// The free slot indices in the order in which they will be reused.
    spec fn free_list(&self) -> Seq<int>;

    /// The number of slots, occupied or free.
    spec fn total_spec(&self) -> nat;

    /// The value that slot `i` holds, if it is a slot and occupied.
    spec fn data_at(&self, i: int) -> Option<Self::Data>;

    /// The internal links agree with the model.
    spec fn wf(&self) -> bool;

    /// A new slot index would still fit the index type.
    spec fn can_insert(&self) -> bool;

    /// What `remove` needs of its argument.
    spec fn can_remove(&self, id: Self::Id) -> bool;

    /// What `get` and `get_mut` need of their argument.
    spec fn can_get(&self, index: usize) -> bool;

    /// In a well formed slot map the occupied slots are exactly those on the
    /// order list, each listed once, and the free slots and the indices past
    /// the last slot hold nothing.
    proof fn lemma_model(&self)
        requires
            self.wf(),
        ensures
            self.order().no_duplicates(),
            forall|i: int| #[trigger] self.data_at(i) is Some <==> self.order().contains(i),
            forall|t: int| 0 <= t < self.free_list().len() ==> #[trigger] self.data_at(self.free_list()[t]) is None,
            forall|i: int| i >= self.total_spec() ==> #[trigger] self.data_at(i) is None,
    ;

    fn new() -> (s: Self)
        ensures
            s.wf(),
            s.order() == Seq::<int>::empty(),
            s.free_list() == Seq::<int>::empty(),
            s.total_spec() == 0,
    ;

    /// Stores `data` at the tail of the list, in the slot freed last if there is
    /// one, else in a new slot at the end.
    fn insert(&mut self, data: Self::Data) -> (id: Self::Id)
        requires
            old(self).wf(),
            old(self).can_insert(),
        ensures
            final(self).wf(),
            Self::index_of(id) == (if old(self).free_list().len() > 0 {
                old(self).free_list()[0]
            } else {
                old(self).total_spec() as int
            }),
            final(self).order() == old(self).order().push(Self::index_of(id)),
            final(self).free_list() == (if old(self).free_list().len() > 0 {
                old(self).free_list().skip(1)
            } else {
                old(self).free_list()
            }),
            final(self).total_spec() == (if old(self).free_list().len() > 0 {
                old(self).total_spec()
            } else {
                old(self).total_spec() + 1
            }),
            final(self).data_at(Self::index_of(id)) == Some(data),
            forall|j: int| j != Self::index_of(id) ==> final(self).data_at(j) == old(self).data_at(j),
    ;

    /// Unlinks the slot that `remove_idx` names, if it is occupied, and puts it
    /// at the head of the free list; a slot that is not occupied is left alone.
    fn remove(&mut self, remove_idx: Self::Id)
        requires
            old(self).wf(),
            old(self).can_remove(remove_idx),
        ensures
            final(self).wf(),
            final(self).total_spec() == old(self).total_spec(),
            ({
                let i = Self::index_of(remove_idx);
                if old(self).data_at(i) is Some {
                    &&& old(self).order().contains(i)
                    &&& forall|k: int|
                        0 <= k < old(self).order().len() && old(self).order()[k] == i
                            ==> #[trigger] final(self).order() == old(self).order().remove(k)
                    &&& final(self).free_list() == seq![i] + old(self).free_list()
                    &&& final(self).data_at(i) is None
                    &&& forall|j: int| j != i ==> final(self).data_at(j) == old(self).data_at(j)
                } else {
                    &&& final(self).order() == old(self).order()
                    &&& final(self).free_list() == old(self).free_list()
                    &&& forall|j: int| final(self).data_at(j) == old(self).data_at(j)
                }
            }),
    ;

    /// The number of slots, occupied or free.
    fn total(&self) -> (n: usize)
        requires
            self.wf(),
        ensures
            n == self.total_spec(),
    ;

    /// The number of occupied slots.
    fn capacity(&self) -> (n: usize)
        requires
            self.wf(),
        ensures
            n == self.order().len(),
    ;

    /// Whether no slot is occupied.
    fn is_empty(&self) -> (b: bool)
        requires
            self.wf(),
        ensures
            b == (self.order().len() == 0),
    ;

    /// The value in slot `index`, if that slot is occupied.
    fn get(&self, index: usize) -> (r: Option<&Self::Data>)
        requires
            self.wf(),
            self.can_get(index),
        ensures
            r is Some == self.data_at(index as int) is Some,
            r is Some ==> *r->0 == self.data_at(index as int)->0,
    ;

    /// A mutable reference to the value in slot `index`, if that slot is occupied.
    fn get_mut(&mut self, index: usize) -> (r: Option<&mut Self::Data>)
        requires
            old(self).wf(),
            old(self).can_get(index),
        ensures
            final(self).wf(),
            final(self).order() == old(self).order(),
            final(self).free_list() == old(self).free_list(),
            final(self).total_spec() == old(self).total_spec(),
            r is Some == old(self).data_at(index as int) is Some,
            r is Some ==> *r->0 == old(self).data_at(index as int)->0,
            r is Some ==> final(self).data_at(index as int) == Some(*final(r->0)),
            r is None ==> final(self).data_at(index as int) == old(self).data_at(index as int),
            forall|j: int| j != index ==> final(self).data_at(j) == old(self).data_at(j),
    ;
}

/// The index that a `u32` link holds; `u32::MAX` stands for none.
pub open spec fn ix(x: u32) -> Option<int> {
    if x == NONE_VALUE {
        None
    } else {
        Some(x as int)
    }
}

/// The index that an optional `usize` link holds.
pub open spec fn ixu(x: Option<usize>) -> Option<int> {
    match x {
        Some(i) => Some(i as int),
        None => None,
    }
}

/// An optional index as a `u32`.
pub open spec fn opt_u32(o: Option<int>) -> Option<u32> {
    match o {
        Some(i) => Some(i as u32),
        None => None,
    }
}

/// The values of a slot map in insertion order.
pub open spec fn slot_values<S: SlotMap>(s: &S) -> Seq<S::Data> {
    s.order().map_values(|i: int| s.data_at(i)->0)
}

/// The inspection interface of a slot map that its tests use.
pub trait TestableSlotMap {
    type Data;
    type Utype;
    type Link: Linkable;

    fn head(&self) -> Option<Self::Utype>;

    fn tail(&self) -> Option<Self::Utype>;

    fn free_head(&self) -> Option<Self::Utype>;

    fn is_occupied(&self, index: usize, data: Self::Data) -> bool;

    fn get_link(&self, index: usize) -> Option<&Self::Link>;
}

/// The list links of a slot, as slot indices.
pub trait Linkable {
    fn prev(&self) -> Option<usize>;

    fn next(&self) -> Option<usize>;
}

} // verus!
