//! The book of the second engine: levels kept in a `BTreeMap`.
pub use crate::ob_standard::OrderBook;
