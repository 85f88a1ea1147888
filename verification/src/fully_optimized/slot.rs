//! A slot packed into one `u64`: the top bit tags it occupied, the other 63
//! bits hold its value (for a free slot, the next free slot or the none
//! sentinel).  The type parameter records what the holder knows of the tag.
use vstd::prelude::*;

use std::marker::PhantomData;

verus! {

/// The top bit of a packed slot: set when the slot is occupied.
pub const TAG_BIT: u64 = 0x8000_0000_0000_0000u64;

/// The mask of the 63 value bits of a packed slot.
pub const VALUE_MASK: u64 = 0x7fff_ffff_ffff_ffffu64;

/// The value of a free slot that links to no other free slot.
pub const FREE_NONE_VALUE: u64 = 0x7fff_ffff_ffff_ffffu64;

/// A slot packed into one `u64`.
pub struct Slot<S: SlotState>(u64, PhantomData<S>);

/// What is known of a slot's tag.
pub trait SlotState {}

/// A slot that may be free or occupied.
pub struct Tagged;

/// A slot known to be free.
pub struct Free;

/// A slot known to be occupied.
pub struct Occupied;

impl SlotState for Tagged {}

impl SlotState for Free {}

impl SlotState for Occupied {}

impl<S: SlotState> Slot<S> {
    /// The 64 raw bits of the slot.
    pub closed spec fn bits(&self) -> u64 {
        self.0
    }

    /// The 63 value bits of the slot.
    pub open spec fn payload(&self) -> u64 {
        self.bits() & VALUE_MASK
    }

    /// Whether the tag bit is set.
    pub open spec fn tagged_occupied(&self) -> bool {
        self.bits() & TAG_BIT != 0
    }

    /// The value the slot holds, without its tag.
    pub fn value(&self) -> (r: u64)
        ensures
            r == self.payload(),
            r <= VALUE_MASK,
    {
        let v = self.0;
        assert(v & !(1u64 << 63u64) == v & 0x7fff_ffff_ffff_ffffu64) by (bit_vector);
        assert(v & 0x7fff_ffff_ffff_ffffu64 <= 0x7fff_ffff_ffff_ffffu64) by (bit_vector);
        v & !(1u64 << 63u64)
    }

    /// Replaces the value of the slot and keeps its tag.
    pub fn set_value(&mut self, new_value: u64)
        requires
            new_value <= VALUE_MASK,
        ensures
            final(self).payload() == new_value,
            final(self).tagged_occupied() == old(self).tagged_occupied(),
    {
        let old_bits = self.0;
        let high_bit = old_bits & (1u64 << 63u64);
        let new_bits = high_bit | new_value;
        assert(new_value <= 0x7fff_ffff_ffff_ffffu64 ==> ((old_bits & (1u64 << 63u64)) | new_value)
            & 0x7fff_ffff_ffff_ffffu64 == new_value) by (bit_vector);
        assert(((old_bits & (1u64 << 63u64)) | new_value) & 0x8000_0000_0000_0000u64 == old_bits
            & 0x8000_0000_0000_0000u64 || new_value > 0x7fff_ffff_ffff_ffffu64) by (bit_vector);
        self.0 = new_bits;
    }
}

impl Slot<Tagged> {
    /// Whether the slot is free.
    pub fn is_free(&self) -> (r: bool)
        ensures
            r == !self.tagged_occupied(),
    {
        !self.is_occupied()
    }

    /// Whether the slot is occupied.
    pub fn is_occupied(&self) -> (r: bool)
        ensures
            r == self.tagged_occupied(),
    {
        let v = self.0;
        assert((v >> 63u64 == 1u64) == (v & 0x8000_0000_0000_0000u64 != 0)) by (bit_vector);
        v >> 63u64 == 1u64
    }

    /// The slot as a free one, if its tag says free.
    pub fn try_as_free(&self) -> (r: Option<Slot<Free>>)
        ensures
            r is Some <==> !self.tagged_occupied(),
            r matches Some(s) ==> s.bits() == self.bits(),
    {
        if self.is_free() {
            Some(Slot(self.0, PhantomData))
        } else {
            None
        }
    }

    /// The slot as an occupied one, if its tag says occupied.
    pub fn try_as_occupied(&self) -> (r: Option<Slot<Occupied>>)
        ensures
            r is Some <==> self.tagged_occupied(),
            r matches Some(s) ==> s.bits() == self.bits(),
    {
        if self.is_occupied() {
            Some(Slot(self.0, PhantomData))
        } else {
            None
        }
    }

    /// Tags the slot occupied; its value is kept.
    pub fn make_occupied(&mut self)
        ensures
            final(self).tagged_occupied(),
            final(self).payload() == old(self).payload(),
    {
        let v = self.0;
        assert((v | 0x8000_0000_0000_0000u64) & 0x8000_0000_0000_0000u64 != 0) by (bit_vector);
        assert((v | 0x8000_0000_0000_0000u64) & 0x7fff_ffff_ffff_ffffu64 == v & 0x7fff_ffff_ffff_ffffu64)
            by (bit_vector);
        assert(v | (1u64 << 63u64) == v | 0x8000_0000_0000_0000u64) by (bit_vector);
        self.0 = v | (1u64 << 63u64);
    }

    /// Tags the slot free; its value is kept.
    pub fn make_free(&mut self)
        ensures
            !final(self).tagged_occupied(),
            final(self).payload() == old(self).payload(),
    {
        let v = self.0;
        assert((v & 0x7fff_ffff_ffff_ffffu64) & 0x8000_0000_0000_0000u64 == 0) by (bit_vector);
        assert((v & 0x7fff_ffff_ffff_ffffu64) & 0x7fff_ffff_ffff_ffffu64 == v & 0x7fff_ffff_ffff_ffffu64)
            by (bit_vector);
        assert(v & !(1u64 << 63u64) == v & 0x7fff_ffff_ffff_ffffu64) by (bit_vector);
        self.0 = v & !(1u64 << 63u64);
    }
}

impl Slot<Free> {
    /// A free slot linking to the free slot `value`.
    pub fn new(value: u64) -> (slot: Self)
        requires
            value < FREE_NONE_VALUE,
        ensures
            slot.payload() == value,
            !slot.tagged_occupied(),
    {
        assert(value < 0x7fff_ffff_ffff_ffffu64 ==> value & 0x7fff_ffff_ffff_ffffu64 == value
            && value & 0x8000_0000_0000_0000u64 == 0) by (bit_vector);
        Self(value, PhantomData)
    }

    /// A free slot that links to no other free slot.
    pub fn new_none() -> (slot: Self)
        ensures
            slot.payload() == FREE_NONE_VALUE,
            !slot.tagged_occupied(),
    {
        assert(0x7fff_ffff_ffff_ffffu64 & 0x7fff_ffff_ffff_ffffu64 == 0x7fff_ffff_ffff_ffffu64) by (bit_vector);
        assert(0x7fff_ffff_ffff_ffffu64 & 0x8000_0000_0000_0000u64 == 0) by (bit_vector);
        Self(FREE_NONE_VALUE, PhantomData)
    }

    /// The free slot this one links to, if any.
    pub fn optional_value(&self) -> (r: Option<u64>)
        ensures
            r == (if self.payload() == FREE_NONE_VALUE {
                None
            } else {
                Some(self.payload())
            }),
    {
        let value = self.value();
        if value == FREE_NONE_VALUE {
            None
        } else {
            Some(value)
        }
    }

    /// The same slot, its tag no longer known.
    pub fn to_tagged(self) -> (slot: Slot<Tagged>)
        ensures
            slot.bits() == self.bits(),
    {
        Slot(self.0, PhantomData)
    }
}

impl Slot<Occupied> {
    /// An occupied slot holding `value`.
    pub fn new(value: u64) -> (slot: Self)
        requires
            value <= VALUE_MASK,
        ensures
            slot.payload() == value,
            slot.tagged_occupied(),
    {
        assert(value <= 0x7fff_ffff_ffff_ffffu64 ==> (value | 0x8000_0000_0000_0000u64)
            & 0x7fff_ffff_ffff_ffffu64 == value) by (bit_vector);
        assert((value | 0x8000_0000_0000_0000u64) & 0x8000_0000_0000_0000u64 != 0) by (bit_vector);
        assert(value | (1u64 << 63u64) == value | 0x8000_0000_0000_0000u64) by (bit_vector);
        Self(value | (1u64 << 63u64), PhantomData)
    }

    /// The same slot, its tag no longer known.
    pub fn to_tagged(self) -> (slot: Slot<Tagged>)
        ensures
            slot.bits() == self.bits(),
    {
        Slot(self.0, PhantomData)
    }
}

} // verus!
