//! The engines in the order they were built: vectors only, a `BTreeMap` of
//! levels, and slot maps.
pub mod v1_vec_only;
pub mod v2_btree;
pub mod v3_slot_map;
