//! The book of the first engine: levels kept in sorted vectors.
pub use crate::ob_naive::{OrderBook, PriceLevel};
