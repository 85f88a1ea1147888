//! A design that packs slot state into bits and keeps the list links of the
//! orders of a price level apart from the orders themselves.
use vstd::prelude::*;

use std::collections::BTreeMap;
use std::marker::PhantomData;

use crate::fully_optimized::slot_map::{Slot, SlotMap};

pub mod arena;
pub mod slot;
pub mod slot_map;
pub mod types;

pub use slot::{Free, Occupied, SlotState, Tagged};

verus! {

/// The book: the price levels of each side, and the orders.  Bids are keyed
/// by the complement of their price, so that on both sides the level served
/// first has the lowest key.
pub struct OrderBook {
    pub bids: BTreeMap<u128, SlotMap<PackedSlot<Tagged>>>,
    pub asks: BTreeMap<u128, SlotMap<PackedSlot<Tagged>>>,
    pub orders: SlotMap<OrderSlot>,
}

/// A matcher over a book, with the queue of its orders.
pub struct OrderMatcher {
    pub orderbook: OrderBook,
    pub queue: SlotMap<PackedSlot<Tagged>>,
}

/// A resting order and the slot of its level that refers to it.
pub struct Order {
    pub side: OrderSide,
    pub price: u128,
    pub qty: u128,
    pub level_slot_idx: u32,
}

/// The side of an order.
#[derive(Clone, Copy)]
pub enum OrderSide {
    Bid,
    Ask,
}

/// A slot of the order store: free with the next free slot, or holding an
/// order between its neighbours.
pub enum OrderSlot {
    Free { next_free: u32 },
    Occupied { order: Order, prev: u32, next: u32 },
}

impl Slot for OrderSlot {}

/// A slot of a price level: the order store slot it refers to (or, when
/// free, the next free slot) and its neighbours.
pub struct PackedSlot<S: SlotState> {
    value: u32,
    prev: u32,
    next: u32,
    _marker: PhantomData<S>,
}

impl Slot for PackedSlot<Tagged> {}

} // verus!
