//! A fixed-capacity map from keys to values, built on open addressing
//! with linear probing and tombstones, that also keeps its entries in order of
//! their most recent insertion or update.

pub mod key;
pub mod model;
pub mod probe_hash_map;

pub use key::ProbeKey;
pub use probe_hash_map::{Entry, InsertionError, ProbeHashMap, ProbeHashMapEntry};
