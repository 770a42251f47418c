//! A software emulation of a MESI-style cache coherence protocol over a
//! shared key-value store.
//!
//! Worker threads each own a private cache of string-keyed values.  A central
//! directory tracks which workers hold each key and mediates coherence
//! traffic over point-to-point channels, backed by a durable store that is
//! the ultimate source of truth.

use vstd::prelude::*;

pub mod controller;
pub mod db;
pub mod directory;
pub mod model;
pub mod protocol;
pub mod thread_socket;

verus! {

/// High-water mark: a cache map never holds more entries than this.
pub const CACHE_SIZE: usize = 1024;

/// Eviction batch: how many entries a full cache drops at once.
pub const FLUSH_SIZE: usize = 128;

} // verus!
