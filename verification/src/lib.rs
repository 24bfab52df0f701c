//! Typed container abstractions over an opaque, byte-addressable key-value
//! store, together with standard-event formatting helpers.
//!
//! The containers (vector, lookup map, unordered map, ordered tree map) keep
//! their entries as individually persisted records in a [`store::Store`];
//! every reference between records is a derived storage key, never an
//! in-memory pointer.

pub mod codec;
pub mod events;
pub mod json;
pub mod keys;
pub mod lazy_option;
pub mod lookup_map;
pub mod lookup_set;
pub mod store;
pub mod tree_map;
pub mod unordered_map;
pub mod unordered_set;
pub mod vector;

use vstd::prelude::*;

verus! {

/// Message for a collection whose persisted records contradict its invariant.
pub const ERR_INCONSISTENT_STATE: &'static str = "The collection is an inconsistent state. Did previous smart contract execution terminate unexpectedly?";

/// Message for an element that cannot be serialized.
pub const ERR_ELEMENT_SERIALIZATION: &'static str = "Cannot serialize element.";

/// Message for stored bytes that cannot be deserialized.
pub const ERR_ELEMENT_DESERIALIZATION: &'static str = "Cannot deserialize element.";

} // verus!
