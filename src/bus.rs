//! The bus arbiter's decisions: who hears a signal, how peer replies reduce,
//! and what answers a read miss.

use vstd::prelude::*;

use crate::cache::CacheState;
use crate::main_memory::{Memory, MemoryView};
use crate::Data;

verus! {

/// What a bus signal asks for.
#[derive(Clone, Copy, Debug, PartialEq, Eq, Structural)]
pub enum BusAction {
    /// Peers drop their copies of the block.
    Invalidate,
    /// The origin missed on a read and waits for the word.
    ReadMiss,
    /// Main memory takes this word for the block.
    WriteMem(Data),
}

/// A message from a processor to the arbiter.
#[derive(Clone, Copy, Debug, PartialEq, Eq, Structural)]
pub struct BusSignal {
    pub origin: usize,
    pub address: usize,
    pub action: BusAction,
}

/// Processors `0..n` other than `origin`, in order.
pub open spec fn others(n: nat, origin: usize) -> Seq<usize>
    decreases n,
{
    if n == 0 {
        seq![]
    } else {
        let prev = others((n - 1) as nat, origin);
        if n - 1 != origin {
            prev.push((n - 1) as usize)
        } else {
            prev
        }
    }
}

/// The controllers that a signal is propagated to: every one but the
/// origin's, except for write-backs, which only main memory takes.
pub open spec fn recipients(n: usize, s: BusSignal) -> Seq<usize> {
    match s.action {
        BusAction::WriteMem(_) => seq![],
        _ => others(n as nat, s.origin),
    }
}

/// The word of the last reply that carries one.
pub open spec fn last_supplied(replies: Seq<Option<Data>>) -> Option<Data>
    decreases replies.len(),
{
    if replies.len() == 0 {
        None
    } else {
        match replies.last() {
            Some(w) => Some(w),
            None => last_supplied(replies.drop_last()),
        }
    }
}

/// The answer to a read miss: shared if a peer supplied the word, exclusive
/// with the word of main memory otherwise.
pub open spec fn response(supplied: Option<Data>, m: MemoryView, address: usize) -> (CacheState, Data) {
    match supplied {
        Some(w) => (CacheState::Shared, w),
        None => (CacheState::Exclusive, m.words[m.block(address) as int]),
    }
}

/// Every processor but the origin, when the origin is one of them.
pub proof fn lemma_others_len(n: nat, origin: usize)
    requires
        n <= usize::MAX,
    ensures
        others(n, origin).len() == (if origin < n {
            n - 1
        } else {
            n as int
        }),
        forall|k: int| 0 <= k < others(n, origin).len() ==> {
            let p = #[trigger] others(n, origin)[k];
            p < n && p != origin
        },
    decreases n,
{
    if n > 0 {
        lemma_others_len((n - 1) as nat, origin);
        let prev = others((n - 1) as nat, origin);
        assert forall|k: int| 0 <= k < others(n, origin).len() implies {
            let p = #[trigger] others(n, origin)[k];
            p < n && p != origin
        } by {
            if k < prev.len() {
                assert(others(n, origin)[k] == prev[k]);
            }
        }
    }
}

/// The single serialising agent between processors and main memory.
pub struct Bus {
    processors: usize,
}

impl Bus {
    /// Number of registered processors.
    pub closed spec fn count(&self) -> usize {
        self.processors
    }

    /// A bus with no processor registered.
    pub fn new() -> (r: Bus)
        ensures
            r.count() == 0,
    {
        Bus { processors: 0 }
    }

    /// Registers one more processor; it gets the next id.
    pub fn register_processor(&mut self) -> (r: usize)
        requires
            old(self).count() < usize::MAX,
        ensures
            r == old(self).count(),
            final(self).count() == old(self).count() + 1,
    {
        let id = self.processors;
        self.processors = self.processors + 1;
        id
    }

    /// Number of registered processors.
    pub fn processors(&self) -> (r: usize)
        ensures
            r == self.count(),
    {
        self.processors
    }

    /// The controllers that `signal` goes to, in order.
    pub fn propagate_signal(&self, signal: &BusSignal) -> (r: Vec<usize>)
        ensures
            r@ == recipients(self.count(), *signal),
    {
        let mut out: Vec<usize> = Vec::new();
        if let BusAction::WriteMem(_) = signal.action {
            return out;
        }
        let mut i: usize = 0;
        while i < self.processors
            invariant
                i <= self.count(),
                signal.action !is WriteMem,
                out@ == others(i as nat, signal.origin),
            decreases self.count() - i,
        {
            if i != signal.origin {
                out.push(i);
            }
            i = i + 1;
        }
        out
    }

    /// How many replies the arbiter collects for `signal`: one from every
    /// other controller for a read miss, none otherwise.
    pub fn reply_count(&self, signal: &BusSignal) -> (r: usize)
        requires
            signal.origin < self.count(),
        ensures
            r == (if signal.action is ReadMiss {
                recipients(self.count(), *signal).len()
            } else {
                0
            }),
    {
        proof {
            lemma_others_len(self.count() as nat, signal.origin);
        }
        match signal.action {
            BusAction::ReadMiss => self.processors - 1,
            _ => 0,
        }
    }

    /// Reduces the replies of the peers to one: the word of the last reply
    /// that carries one.
    pub fn check_cache_data(&self, replies: &Vec<Option<Data>>) -> (r: Option<Data>)
        ensures
            r == last_supplied(replies@),
    {
        let mut result: Option<Data> = None;
        let mut i: usize = 0;
        while i < replies.len()
            invariant
                i <= replies@.len(),
                result == last_supplied(replies@.subrange(0, i as int)),
            decreases replies@.len() - i,
        {
            proof {
                let s = replies@.subrange(0, i as int + 1);
                assert(s.drop_last() =~= replies@.subrange(0, i as int));
                assert(s.last() == replies@[i as int]);
            }
            if let Some(data) = replies[i] {
                result = Some(data);
            }
            i = i + 1;
        }
        proof {
            assert(replies@.subrange(0, i as int) =~= replies@);
        }
        result
    }

    /// The answer to a read miss at `address`.
    pub fn read_miss_response(&self, supplied: Option<Data>, memory: &Memory, address: usize) -> (r: (
        CacheState,
        Data,
    ))
        requires
            memory.wf(),
            supplied is None ==> memory@.valid_address(address),
        ensures
            r == response(supplied, memory@, address),
    {
        match supplied {
            Some(data) => (CacheState::Shared, data),
            None => (CacheState::Exclusive, memory.get_address(address)),
        }
    }

    /// Finishes `signal` once it has been propagated and the replies of the
    /// peers are in: a read miss is answered, a write-back goes to main
    /// memory, an invalidation needs nothing more.
    pub fn handle_signal(
        &self,
        signal: &BusSignal,
        replies: &Vec<Option<Data>>,
        memory: &mut Memory,
    ) -> (r: Option<(CacheState, Data)>)
        requires
            old(memory).wf(),
            signal.action !is Invalidate ==> old(memory)@.valid_address(signal.address),
        ensures
            final(memory).wf(),
            match signal.action {
                BusAction::Invalidate => r == None::<(CacheState, Data)> && final(memory)@ == old(
                    memory,
                )@,
                BusAction::ReadMiss => r == Some(
                    response(last_supplied(replies@), old(memory)@, signal.address),
                ) && final(memory)@ == old(memory)@,
                BusAction::WriteMem(d) => r == None::<(CacheState, Data)> && final(memory)@ == old(
                    memory,
                )@.stored(old(memory)@.block(signal.address), d),
            },
    {
        match signal.action {
            BusAction::Invalidate => None,
            BusAction::ReadMiss => {
                let supplied = self.check_cache_data(replies);
                Some(self.read_miss_response(supplied, memory, signal.address))
            },
            BusAction::WriteMem(data) => {
                memory.store_address(signal.address, data);
                None
            },
        }
    }
}

} // verus!
