//! The arena based order book: every price level is a slot map whose slots
//! live in chunks of one shared slot arena.
pub mod arena_slot_allocator;
pub mod arena_slot_map;
pub mod laws;
pub mod level_fill;
pub mod order_book;
pub mod order_matcher;

pub use arena_slot_allocator::ArenaId;
