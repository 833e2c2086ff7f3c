//! Main memory: a linear array of words indexed by block address.

use vstd::prelude::*;

use crate::cache::{bit_len, index_width};
use crate::{Data, Event, WORD_BYTES};

verus! {

/// Abstract state of main memory: its words and the events it has emitted and
/// not yet handed out.
pub struct MemoryView {
    pub blocks: usize,
    pub offset_bits: usize,
    pub words: Seq<Data>,
    pub events: Seq<Event>,
}

impl MemoryView {
    pub open spec fn wf(self) -> bool {
        &&& self.offset_bits == bit_len((WORD_BYTES - 1) as nat)
        &&& self.offset_bits < 32
        &&& self.words.len() == self.blocks
    }

    /// Block index of an address.
    pub open spec fn block(self, address: usize) -> usize {
        address >> self.offset_bits
    }

    /// The address falls inside memory.
    pub open spec fn valid_address(self, address: usize) -> bool {
        self.block(address) < self.blocks
    }

    /// Memory after writing `data` at block `block_index`.
    pub open spec fn stored(self, block_index: usize, data: Data) -> MemoryView {
        MemoryView {
            words: self.words.update(block_index as int, data),
            events: self.events.push(Event::MemWrite { block_i: block_index, data }),
            ..self
        }
    }
}

/// Main memory of `blocks` words.
pub struct Memory {
    blocks: usize,
    storage: Vec<Data>,
    offset_bits: usize,
    events: Vec<Event>,
}

impl View for Memory {
    type V = MemoryView;

    closed spec fn view(&self) -> MemoryView {
        MemoryView {
            blocks: self.blocks,
            offset_bits: self.offset_bits,
            words: self.storage@,
            events: self.events@,
        }
    }
}

impl Memory {
    pub open spec fn wf(&self) -> bool {
        self@.wf()
    }

    /// A memory of `blocks` zero words.
    pub fn new(blocks: usize) -> (r: Memory)
        ensures
            r.wf(),
            r@.blocks == blocks,
            r@.words == Seq::new(blocks as nat, |i: int| 0u16),
            r@.events == Seq::<Event>::empty(),
    {
        let offset_bits = index_width(WORD_BYTES);
        proof {
            reveal_with_fuel(bit_len, 3);
        }
        let mut storage: Vec<Data> = Vec::with_capacity(blocks);
        let mut k: usize = 0;
        while k < blocks
            invariant
                k <= blocks,
                storage@ == Seq::new(k as nat, |i: int| 0u16),
            decreases blocks - k,
        {
            storage.push(0);
            k = k + 1;
            assert(storage@ =~= Seq::new(k as nat, |i: int| 0u16));
        }
        Memory { offset_bits, blocks, storage, events: Vec::new() }
    }

    /// Number of words.
    pub fn blocks(&self) -> (r: usize)
        ensures
            r == self@.blocks,
    {
        self.blocks
    }

    /// Block index of `address`.
    pub fn get_line(&self, address: usize) -> (r: usize)
        requires
            self.wf(),
        ensures
            r == self@.block(address),
    {
        address >> self.offset_bits
    }

    /// The word at block `index`, if there is one.
    pub fn get_storage(&self, index: usize) -> (r: Option<Data>)
        requires
            self.wf(),
        ensures
            r == (if index < self@.blocks {
                Some(self@.words[index as int])
            } else {
                None
            }),
    {
        if index < self.storage.len() {
            Some(self.storage[index])
        } else {
            None
        }
    }

    /// The word of the block that holds `address`.
    pub fn get_address(&self, address: usize) -> (r: Data)
        requires
            self.wf(),
            self@.valid_address(address),
        ensures
            r == self@.words[self@.block(address) as int],
    {
        self.storage[address >> self.offset_bits]
    }

    /// Writes `data` to the block that holds `address`.
    pub fn store_address(&mut self, address: usize, data: Data)
        requires
            old(self).wf(),
            old(self)@.valid_address(address),
        ensures
            final(self).wf(),
            final(self)@ == old(self)@.stored(old(self)@.block(address), data),
    {
        let block_index = address >> self.offset_bits;
        self.store_line(block_index, data);
    }

    /// Writes `data` at block `block_index` and records the write.
    pub fn store_line(&mut self, block_index: usize, data: Data)
        requires
            old(self).wf(),
            block_index < old(self)@.blocks,
        ensures
            final(self).wf(),
            final(self)@ == old(self)@.stored(block_index, data),
    {
        self.events.push(Event::MemWrite { block_i: block_index, data });
        self.storage[block_index] = data;
    }

    /// Hands out the events recorded since the last call.
    pub fn take_events(&mut self) -> (r: Vec<Event>)
        requires
            old(self).wf(),
        ensures
            final(self).wf(),
            r@ == old(self)@.events,
            final(self)@ == (MemoryView { events: Seq::empty(), ..old(self)@ }),
    {
        let mut out: Vec<Event> = Vec::new();
        core::mem::swap(&mut out, &mut self.events);
        out
    }
}

} // verus!
