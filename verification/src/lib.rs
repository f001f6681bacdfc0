//! A scalable hash map core: a fixed-capacity bucket (`Cell`) protected by an
//! eight-byte read/write lock word, a power-of-two array of such buckets that
//! rehashes incrementally into a successor array, an epoch-based reclamation
//! model, and the `HashMap` orchestration on top of them.
//!
//! The design is that of a concurrent container; this crate carries it in a
//! single-threaded embedding so that every structural protocol — the lock
//! word's state machine, the killed flag on migrated cells, the rehash
//! cursor, the routing of every key to exactly one cell across the current
//! array and its predecessor, and the epoch discipline of the reclamation
//! model — is stated and proved. Mutators take `&mut self` where a
//! concurrent deployment would synchronise through the cell locks; the
//! contracts all speak of the map's abstract value, a `Map<u64, V>`.

pub mod cell;
pub mod cell_array;
pub mod ebr;
pub mod hash_map;
mod hashing;
pub mod laws;
pub mod lock;
pub mod model;

pub use hash_map::{HashMap, Ticket};
pub use hashing::{hash_of, hash_pair, partial_of};
