//! Decisions of one processor: its snoop controller's reaction to bus
//! signals and its CPU front-end's handling of instructions. Each function
//! works on the processor's cache while it is held; the caller does the
//! messaging around it.

use vstd::prelude::*;

use crate::bus::{BusAction, BusSignal};
use crate::cache::{Cache, CacheLine, CacheState, CacheView};
use crate::instructions::Instruction;
use crate::{Data, Event, MemOp};

verus! {

/// The cache after its snoop controller has handled `s`.
pub open spec fn snooped(c: CacheView, s: BusSignal) -> CacheView {
    match s.action {
        BusAction::Invalidate => c.invalidated(s.address),
        BusAction::ReadMiss => match c.lookup(s.address) {
            Some(l) => if l.state == CacheState::Exclusive || l.state == CacheState::Modified {
                c.state_changed(s.address, CacheState::Owned)
            } else {
                c
            },
            None => c,
        },
        BusAction::WriteMem(_) => c,
    }
}

/// What the snoop controller sends back for `s`: for a read miss the word it
/// holds, or nothing held; for the other signals no reply at all.
pub open spec fn snoop_reply(c: CacheView, s: BusSignal) -> Option<Option<Data>> {
    match s.action {
        BusAction::ReadMiss => Some(
            match c.lookup(s.address) {
                Some(l) => Some(l.data),
                None => None,
            },
        ),
        _ => None,
    }
}

/// The write-back owed for an evicted line: its word goes to memory if the
/// line was dirty (modified or owned).
pub open spec fn write_back(line: CacheLine, address: usize, processor_i: usize) -> Option<BusSignal> {
    if line.state == CacheState::Modified || line.state == CacheState::Owned {
        Some(BusSignal { origin: processor_i, address, action: BusAction::WriteMem(line.data) })
    } else {
        None
    }
}

pub open spec fn opt_seq(o: Option<BusSignal>) -> Seq<BusSignal> {
    match o {
        Some(s) => seq![s],
        None => seq![],
    }
}

/// The line that a store for `a` evicts.
pub open spec fn evicted(c: CacheView, a: usize) -> CacheLine {
    c.lines[c.victim(a)]
}

/// Address of the block that a store for `a` evicts.
pub open spec fn evicted_address(c: CacheView, a: usize) -> usize {
    c.line_address(evicted(c, a).tag, c.index(a))
}

/// The miss alert of a write of `a`: the victim held another block, or
/// nothing valid.
pub open spec fn write_alert(c: CacheView, a: usize, processor_i: usize) -> Option<Event> {
    if evicted(c, a).tag != c.tag(a) || evicted(c, a).state == CacheState::Invalid {
        Some(Event::Alert { processor_i, address: a, op: MemOp::Write })
    } else {
        None
    }
}

/// Signals of a write of `a`: an invalidation unless the victim was
/// modified, then the write-back of the victim if it was dirty.
pub open spec fn write_signals(c: CacheView, a: usize, processor_i: usize) -> Seq<BusSignal> {
    let inv = if evicted(c, a).state != CacheState::Modified {
        seq![BusSignal { origin: processor_i, address: a, action: BusAction::Invalidate }]
    } else {
        seq![]
    };
    inv + opt_seq(write_back(evicted(c, a), evicted_address(c, a), processor_i))
}

/// The processor's part of an instruction: the miss alert to report, the
/// signals to send in order, and whether the last of them is a read miss
/// whose answer completes the instruction.
pub struct CpuStep {
    pub alert: Option<Event>,
    pub signals: Vec<BusSignal>,
    pub awaits_data: bool,
}

/// The snoop controller's handling of `signal` on its cache: invalidation
/// drops the block; a read miss is answered with the word held, and an
/// exclusive or modified line becomes owned; a write-back is not its
/// business. Returns the reply to send, if one is owed.
pub fn controller_handle_signal(cache: &mut Cache, signal: &BusSignal) -> (r: Option<Option<Data>>)
    requires
        old(cache).wf(),
        old(cache)@.valid_address(signal.address),
    ensures
        final(cache).wf(),
        final(cache)@ == snooped(old(cache)@, *signal),
        r == snoop_reply(old(cache)@, *signal),
{
    match signal.action {
        BusAction::Invalidate => {
            cache.invalidate_address(signal.address);
            None
        },
        BusAction::ReadMiss => match cache.get_address(signal.address) {
            Some(line) => {
                match line.state {
                    CacheState::Exclusive | CacheState::Modified => {
                        cache.change_state_address(signal.address, CacheState::Owned);
                    },
                    _ => {},
                }
                Some(Some(line.data))
            },
            None => Some(None),
        },
        BusAction::WriteMem(_) => None,
    }
}

/// The write-back signal for `replaced_line`, evicted from `address`, if it
/// was dirty.
pub fn maybe_write_back(address: usize, replaced_line: CacheLine, processor_i: usize) -> (r: Option<
    BusSignal,
>)
    ensures
        r == write_back(replaced_line, address, processor_i),
{
    match replaced_line.state {
        CacheState::Invalid | CacheState::Shared | CacheState::Exclusive => None,
        CacheState::Modified | CacheState::Owned => Some(
            BusSignal {
                origin: processor_i,
                address,
                action: BusAction::WriteMem(replaced_line.data),
            },
        ),
    }
}

/// The CPU front-end's handling of `instruction` on its cache. A read hit
/// and a calculation need nothing; a read miss reports an alert and asks
/// the bus for the word; a write stores the word as modified and reports the
/// signals that the eviction and the peers need.
pub fn cpu_execute_instruction(cache: &mut Cache, instruction: Instruction, processor_i: usize) -> (r:
    CpuStep)
    requires
        old(cache).wf(),
        match instruction {
            Instruction::Calc => true,
            Instruction::Read { address } => old(cache)@.valid_address(address),
            Instruction::Write { address, .. } => old(cache)@.valid_address(address),
        },
    ensures
        final(cache).wf(),
        match instruction {
            Instruction::Calc => final(cache)@ == old(cache)@ && r.alert == None::<Event>
                && r.signals@ == Seq::<BusSignal>::empty() && !r.awaits_data,
            Instruction::Read { address } => final(cache)@ == old(cache)@ && if old(
                cache,
            )@.lookup(address) is Some {
                r.alert == None::<Event> && r.signals@ == Seq::<BusSignal>::empty()
                    && !r.awaits_data
            } else {
                r.alert == Some(Event::Alert { processor_i, address, op: MemOp::Read })
                    && r.signals@ == seq![
                    BusSignal { origin: processor_i, address, action: BusAction::ReadMiss },
                ] && r.awaits_data
            },
            Instruction::Write { address, data } => {
                &&& final(cache)@ == old(cache)@.stored(address, CacheState::Modified, data)
                &&& r.alert == write_alert(old(cache)@, address, processor_i)
                &&& r.signals@ == write_signals(old(cache)@, address, processor_i)
                &&& !r.awaits_data
                &&& (evicted(old(cache)@, address).state == CacheState::Modified || evicted(
                    old(cache)@,
                    address,
                ).state == CacheState::Owned) ==> r.signals@.last() == (BusSignal {
                    origin: processor_i,
                    address: evicted_address(old(cache)@, address),
                    action: BusAction::WriteMem(evicted(old(cache)@, address).data),
                })
            },
        },
{
    match instruction {
        Instruction::Calc => CpuStep { alert: None, signals: Vec::new(), awaits_data: false },
        Instruction::Read { address } => match cache.get_address(address) {
            Some(_) => CpuStep { alert: None, signals: Vec::new(), awaits_data: false },
            None => {
                let mut signals: Vec<BusSignal> = Vec::new();
                signals.push(
                    BusSignal { origin: processor_i, address, action: BusAction::ReadMiss },
                );
                CpuStep {
                    alert: Some(Event::Alert { processor_i, address, op: MemOp::Read }),
                    signals,
                    awaits_data: true,
                }
            },
        },
        Instruction::Write { address, data } => {
            let tag = cache.get_tag(address);
            let index = cache.get_index(address);
            let replaced_line = cache.store_line(address, CacheState::Modified, data);
            let alert = if replaced_line.tag != tag || replaced_line.state == CacheState::Invalid {
                Some(Event::Alert { processor_i, address, op: MemOp::Write })
            } else {
                None
            };
            let mut signals: Vec<BusSignal> = Vec::new();
            if replaced_line.state != CacheState::Modified {
                signals.push(
                    BusSignal { origin: processor_i, address, action: BusAction::Invalidate },
                );
            }
            let evicted_at = cache.get_line_address(replaced_line.tag, index);
            if let Some(signal) = maybe_write_back(evicted_at, replaced_line, processor_i) {
                signals.push(signal);
            }
            proof {
                let ghost c = old(cache)@;
                assert(signals@ =~= write_signals(c, address, processor_i));
            }
            CpuStep { alert, signals, awaits_data: false }
        },
    }
}

/// Completes a read miss of `address` with the bus's answer: stores the word
/// in the given state and returns the write-back owed for the evicted line.
pub fn cpu_complete_read(
    cache: &mut Cache,
    address: usize,
    state: CacheState,
    data: Data,
    processor_i: usize,
) -> (r: Option<BusSignal>)
    requires
        old(cache).wf(),
        old(cache)@.valid_address(address),
    ensures
        final(cache).wf(),
        final(cache)@ == old(cache)@.stored(address, state, data),
        r == write_back(
            evicted(old(cache)@, address),
            evicted_address(old(cache)@, address),
            processor_i,
        ),
        (evicted(old(cache)@, address).state == CacheState::Modified || evicted(
            old(cache)@,
            address,
        ).state == CacheState::Owned) ==> r == Some(
            BusSignal {
                origin: processor_i,
                address: evicted_address(old(cache)@, address),
                action: BusAction::WriteMem(evicted(old(cache)@, address).data),
            },
        ),
{
    let index = cache.get_index(address);
    let replaced_line = cache.store_line(address, state, data);
    let evicted_at = cache.get_line_address(replaced_line.tag, index);
    maybe_write_back(evicted_at, replaced_line, processor_i)
}

} // verus!
