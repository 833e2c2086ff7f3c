//! A small cache-coherent multiprocessor: private set-associative caches kept
//! coherent by the MOESI protocol over one arbitrated snooping bus.

use vstd::prelude::*;

pub mod bus;
pub mod cache;
pub mod coherence;
pub mod instructions;
pub mod main_memory;
pub mod processor;
pub mod random;
pub mod system;

verus! {

/// The smallest unit exchanged between caches and memory.
pub type Data = u16;

/// Number of bytes in one word.
pub const WORD_BYTES: usize = 2;

/// Kind of memory operation that missed in a private cache.
#[derive(Clone, Copy, Debug, PartialEq, Eq, Structural)]
pub enum MemOp {
    Write,
    Read,
}

/// A notification for the viewer of the simulation.
#[derive(Clone, Copy, Debug, PartialEq, Eq, Structural)]
pub enum Event {
    /// A line of a private cache was written (data or state).
    CacheWrite { cache_i: usize, block_i: usize, line: cache::CacheLine },
    /// A word of main memory was written.
    MemWrite { block_i: usize, data: Data },
    /// A processor missed in its cache.
    Alert { processor_i: usize, address: usize, op: MemOp },
}

} // verus!
