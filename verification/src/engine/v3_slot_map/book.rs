//! The book of the third engine: levels and orders in slot maps, a level
//! left empty leaving the book.
pub use crate::ob_arena_optimized::OrderBook;
