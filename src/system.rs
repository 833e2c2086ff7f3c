//! The whole machine run one bus transaction at a time: each signal goes
//! through the arbiter end to end (propagation, replies, answer) before the
//! next, which is the order the arbiter imposes on the bus.

use vstd::prelude::*;

use crate::bus::{last_supplied, others, response, Bus, BusAction, BusSignal};
use crate::cache::{
    cold_line, lemma_line_address_block, lemma_set_bounds, lemma_slot_set, lemma_victim_exists,
    Cache, CacheState, CacheView, MAX_SETS,
};
use crate::instructions::Instruction;
use crate::main_memory::{Memory, MemoryView};
use crate::processor::{
    cpu_complete_read, cpu_execute_instruction, controller_handle_signal, evicted,
    evicted_address, opt_seq, snooped, write_alert, write_back, write_signals,
};
use crate::coherence::{
    allowed, benign, coherent, keeps_sharers, lemma_cold_coherent, lemma_execute_coherent,
    lemma_execute_sharers, lemma_execute_transitions, line_event, sharers_ok, state_of,
};
use crate::{Data, Event, MemOp};

verus! {

/// Configuration of the machine.
#[derive(Clone, Copy, Debug, PartialEq, Eq, Structural)]
pub struct SocProperties {
    pub num_processors: usize,
    pub cache_associativity: usize,
    pub cache_sets: usize,
    pub main_memory_blocks: usize,
}

/// A configuration the machine can be built from.
pub open spec fn props_ok(p: SocProperties) -> bool {
    &&& 1 <= p.num_processors
    &&& 1 <= p.cache_sets <= MAX_SETS
    &&& 1 <= p.cache_associativity
    &&& p.cache_sets * p.cache_associativity <= usize::MAX
}

/// Abstract state of the machine: every private cache and main memory.
pub struct SystemView {
    pub caches: Seq<CacheView>,
    pub memory: MemoryView,
}

/// The word a cache answers a read miss of `a` with, if it holds the block.
pub open spec fn snoop_word(c: CacheView, a: usize) -> Option<Data> {
    match c.lookup(a) {
        Some(l) => Some(l.data),
        None => None,
    }
}

impl SystemView {
    /// All caches share one geometry, every one is well formed and knows its
    /// own id.
    pub open spec fn wf(self) -> bool {
        &&& 1 <= self.caches.len() <= usize::MAX
        &&& self.memory.wf()
        &&& forall|q: int|
            0 <= q < self.caches.len() ==> {
                let c = #[trigger] self.caches[q];
                &&& c.wf()
                &&& c.id == q
                &&& c.sets == self.caches[0].sets
                &&& c.associativity == self.caches[0].associativity
            }
    }

    /// Every valid line names a block that main memory has, so its
    /// write-back has somewhere to go.
    pub open spec fn backed(self) -> bool {
        forall|q: int, k: int|
            0 <= q < self.caches.len() && 0 <= k < self.caches[q].lines.len()
                && (#[trigger] self.caches[q].lines[k]).state != CacheState::Invalid
                ==> self.memory.valid_address(
                self.caches[q].line_address(
                    self.caches[q].lines[k].tag,
                    (k / self.caches[q].associativity as int) as usize,
                ),
            )
    }

    /// The address maps to a set of the caches and a word of memory.
    pub open spec fn valid_address(self, a: usize) -> bool {
        self.caches[0].valid_address(a) && self.memory.valid_address(a)
    }

    /// The arbiter can handle `s`: it comes from a processor, and its
    /// address maps to a set where caches react and to a word where memory
    /// does.
    pub open spec fn signal_ok(self, s: BusSignal) -> bool {
        &&& s.origin < self.caches.len()
        &&& match s.action {
            BusAction::WriteMem(_) => self.memory.valid_address(s.address),
            BusAction::Invalidate => self.caches[0].valid_address(s.address),
            BusAction::ReadMiss => self.valid_address(s.address),
        }
    }

    pub open spec fn valid_instruction(self, i: Instruction) -> bool {
        match i {
            Instruction::Calc => true,
            Instruction::Read { address } => self.valid_address(address),
            Instruction::Write { address, .. } => self.valid_address(address),
        }
    }

    /// Replies of the peers of the origin to the read miss `s`, in order.
    pub open spec fn replies(self, s: BusSignal) -> Seq<Option<Data>> {
        others(self.caches.len(), s.origin).map_values(
            |q: usize| snoop_word(self.caches[q as int], s.address),
        )
    }

    /// The arbiter's answer to the read miss `s`.
    pub open spec fn answer(self, s: BusSignal) -> (CacheState, Data) {
        response(last_supplied(self.replies(s)), self.memory, s.address)
    }

    /// The machine after the arbiter has handled `s`.
    pub open spec fn after_signal(self, s: BusSignal) -> SystemView {
        match s.action {
            BusAction::WriteMem(d) => SystemView {
                memory: self.memory.stored(self.memory.block(s.address), d),
                ..self
            },
            _ => SystemView {
                caches: Seq::new(
                    self.caches.len(),
                    |q: int|
                        if q != s.origin {
                            snooped(self.caches[q], s)
                        } else {
                            self.caches[q]
                        },
                ),
                ..self
            },
        }
    }

    /// The machine after the arbiter has handled `signals` in order.
    pub open spec fn after_signals(self, signals: Seq<BusSignal>) -> SystemView
        decreases signals.len(),
    {
        if signals.len() == 0 {
            self
        } else {
            self.after_signal(signals[0]).after_signals(signals.drop_first())
        }
    }

    pub open spec fn with_cache(self, p: int, c: CacheView) -> SystemView {
        SystemView { caches: self.caches.update(p, c), ..self }
    }

    /// The machine after processor `p` has executed `i`.
    pub open spec fn executed(self, p: int, i: Instruction) -> SystemView {
        let c = self.caches[p];
        match i {
            Instruction::Calc => self,
            Instruction::Read { address } => if c.lookup(address) is Some {
                self
            } else {
                let s = BusSignal { origin: p as usize, address, action: BusAction::ReadMiss };
                let (state, data) = self.answer(s);
                let v1 = self.after_signal(s);
                let c1 = v1.caches[p];
                v1.with_cache(p, c1.stored(address, state, data)).after_signals(
                    opt_seq(write_back(evicted(c1, address), evicted_address(c1, address), p as usize)),
                )
            },
            Instruction::Write { address, data } => self.with_cache(
                p,
                c.stored(address, CacheState::Modified, data),
            ).after_signals(write_signals(c, address, p as usize)),
        }
    }

    /// The signals processor `p` sends while executing `i`.
    pub open spec fn sent(self, p: int, i: Instruction) -> Seq<BusSignal> {
        let c = self.caches[p];
        match i {
            Instruction::Calc => seq![],
            Instruction::Read { address } => if c.lookup(address) is Some {
                seq![]
            } else {
                let s = BusSignal { origin: p as usize, address, action: BusAction::ReadMiss };
                let v1 = self.after_signal(s);
                let c1 = v1.caches[p];
                seq![s] + opt_seq(
                    write_back(evicted(c1, address), evicted_address(c1, address), p as usize),
                )
            },
            Instruction::Write { address, .. } => write_signals(c, address, p as usize),
        }
    }

    /// The miss alert processor `p` reports while executing `i`.
    pub open spec fn alert(self, p: int, i: Instruction) -> Option<Event> {
        let c = self.caches[p];
        match i {
            Instruction::Calc => None,
            Instruction::Read { address } => if c.lookup(address) is Some {
                None
            } else {
                Some(Event::Alert { processor_i: p as usize, address, op: MemOp::Read })
            },
            Instruction::Write { address, .. } => write_alert(c, address, p as usize),
        }
    }
}

/// A snoop keeps the geometry and the tags, and validates no line.
pub proof fn lemma_snooped_lines(c: CacheView, s: BusSignal)
    requires
        c.wf(),
        c.valid_address(s.address),
    ensures
        ({
            let n = snooped(c, s);
            &&& n.wf()
            &&& n.id == c.id
            &&& n.sets == c.sets
            &&& n.associativity == c.associativity
            &&& n.lines.len() == c.lines.len()
            &&& forall|k: int|
                0 <= k < c.lines.len() ==> (#[trigger] n.lines[k]).tag == c.lines[k].tag && (
                n.lines[k].state != CacheState::Invalid ==> c.lines[k].state
                    != CacheState::Invalid)
        }),
{
    let a = s.address;
    if s.action is ReadMiss {
        if let Some(i) = c.hit_slot(a) {
            assert(c.is_first_hit(a, i));
            lemma_set_bounds(c.index(a) as int, c.sets as int, c.associativity as int);
        }
    }
}

/// Handling a signal keeps the processors, the geometry of every cache and
/// the size of memory.
pub proof fn lemma_after_signal_frame(v: SystemView, s: BusSignal)
    requires
        v.wf(),
        v.signal_ok(s),
    ensures
        ({
            let n = v.after_signal(s);
            &&& n.caches.len() == v.caches.len()
            &&& n.memory.blocks == v.memory.blocks
            &&& n.memory.offset_bits == v.memory.offset_bits
            &&& forall|q: int|
                0 <= q < v.caches.len() ==> {
                    &&& (#[trigger] n.caches[q]).sets == v.caches[q].sets
                    &&& n.caches[q].associativity == v.caches[q].associativity
                    &&& n.caches[q].offset_bits == v.caches[q].offset_bits
                    &&& n.caches[q].index_bits == v.caches[q].index_bits
                    &&& n.caches[q].id == v.caches[q].id
                    &&& n.caches[q].lines.len() == v.caches[q].lines.len()
                }
        }),
{
    if s.action !is WriteMem {
        assert forall|q: int| 0 <= q < v.caches.len() implies {
            let c = #[trigger] v.after_signal(s).caches[q];
            &&& c.sets == v.caches[q].sets
            &&& c.associativity == v.caches[q].associativity
            &&& c.offset_bits == v.caches[q].offset_bits
            &&& c.index_bits == v.caches[q].index_bits
            &&& c.id == v.caches[q].id
            &&& c.lines.len() == v.caches[q].lines.len()
        } by {
            assert(v.caches[q].valid_address(s.address));
            lemma_snooped_lines(v.caches[q], s);
        }
        assert forall|q: int| 0 <= q < v.caches.len() implies {
            let c = #[trigger] v.after_signal(s).caches[q];
            &&& c.sets == v.caches[q].sets
            &&& c.offset_bits == v.caches[q].offset_bits
            &&& c.index_bits == v.caches[q].index_bits
        } by {
            lemma_snooped_lines(v.caches[q], s);
        }
    }
}

/// Handling signals one more at the end is handling that one last.
pub proof fn lemma_after_signals_push(v: SystemView, signals: Seq<BusSignal>, s: BusSignal)
    ensures
        v.after_signals(signals.push(s)) == v.after_signals(signals).after_signal(s),
    decreases signals.len(),
{
    if signals.len() == 0 {
        assert(signals.push(s).drop_first() =~= Seq::<BusSignal>::empty());
        assert(signals.push(s)[0] == s);
        assert(v.after_signal(s).after_signals(Seq::<BusSignal>::empty()) == v.after_signal(s));
        assert(v.after_signals(signals) == v);
    } else {
        assert(signals.push(s)[0] == signals[0]);
        assert(signals.push(s).drop_first() =~= signals.drop_first().push(s));
        lemma_after_signals_push(v.after_signal(signals[0]), signals.drop_first(), s);
    }
}

/// Storing a line fetched for a valid address keeps the machine well formed
/// and every valid line backed by memory.
pub proof fn lemma_stored_wf(v: SystemView, p: int, a: usize, state: CacheState, data: Data)
    requires
        v.wf(),
        v.backed(),
        0 <= p < v.caches.len(),
        v.valid_address(a),
    ensures
        v.with_cache(p, v.caches[p].stored(a, state, data)).wf(),
        v.with_cache(p, v.caches[p].stored(a, state, data)).backed(),
{
    let c = v.caches[p];
    let n = v.with_cache(p, c.stored(a, state, data));
    lemma_victim_exists(c, a);
    lemma_set_bounds(c.index(a) as int, c.sets as int, c.associativity as int);
    let vi = c.victim(a);
    lemma_slot_set(c, a, vi);
    lemma_line_address_block(c, a);
    assert forall|q: int, k: int|
        0 <= q < n.caches.len() && 0 <= k < n.caches[q].lines.len()
            && (#[trigger] n.caches[q].lines[k]).state != CacheState::Invalid
            implies n.memory.valid_address(
        n.caches[q].line_address(
            n.caches[q].lines[k].tag,
            (k / n.caches[q].associativity as int) as usize,
        ),
    ) by {
        if q == p && k == vi {
        } else {
            assert(n.caches[q].lines[k] == v.caches[q].lines[k]);
        }
    }
}

/// Events recorded by the first `k` caches, cache by cache.
pub open spec fn cache_events(caches: Seq<CacheView>, k: nat) -> Seq<Event>
    decreases k,
{
    if k == 0 || k > caches.len() {
        seq![]
    } else {
        cache_events(caches, (k - 1) as nat) + caches[k - 1].events
    }
}

/// What one instruction did on the bus: the miss alert reported and the
/// signals sent, in order.
pub struct Trace {
    pub alert: Option<Event>,
    pub signals: Vec<BusSignal>,
}

/// The machine: one private cache per processor, the bus and main memory.
pub struct System {
    caches: Vec<Cache>,
    memory: Memory,
    bus: Bus,
}

impl View for System {
    type V = SystemView;

    closed spec fn view(&self) -> SystemView {
        SystemView { caches: self.caches@.map_values(|c: Cache| c@), memory: self.memory@ }
    }
}

impl System {
    pub closed spec fn inv(&self) -> bool {
        &&& self.bus.count() == self.caches.len()
        &&& forall|q: int| 0 <= q < self.caches.len() ==> (#[trigger] self.caches@[q]).inv()
    }

    pub open spec fn wf(&self) -> bool {
        self.inv() && self@.wf() && self@.backed()
    }

    proof fn lemma_view_at(&self, q: int)
        requires
            0 <= q < self.caches.len(),
        ensures
            self@.caches[q] == self.caches@[q]@,
            self@.caches.len() == self.caches@.len(),
    {
    }

    /// A machine with every cache line invalid and memory zeroed.
    pub fn new(props: SocProperties) -> (r: System)
        requires
            props_ok(props),
        ensures
            r.wf(),
            r@.caches.len() == props.num_processors,
            r@.memory.blocks == props.main_memory_blocks,
            r@.memory.words == Seq::new(props.main_memory_blocks as nat, |i: int| 0u16),
            coherent(r@),
            sharers_ok(r@),
            r@.memory.events == Seq::<Event>::empty(),
            forall|q: int|
                0 <= q < props.num_processors ==> {
                    let c = #[trigger] r@.caches[q];
                    &&& c.sets == props.cache_sets
                    &&& c.associativity == props.cache_associativity
                    &&& c.lines == Seq::new(
                        (props.cache_sets * props.cache_associativity) as nat,
                        |k: int| cold_line(),
                    )
                    &&& c.events == Seq::<Event>::empty()
                },
    {
        let memory = Memory::new(props.main_memory_blocks);
        let mut bus = Bus::new();
        let mut caches: Vec<Cache> = Vec::new();
        let mut i: usize = 0;
        while i < props.num_processors
            invariant
                props_ok(props),
                i <= props.num_processors,
                caches.len() == i,
                bus.count() == i,
                forall|q: int|
                    0 <= q < i ==> {
                        let c = #[trigger] caches@[q];
                        &&& c.wf()
                        &&& c@.id == q
                        &&& c@.sets == props.cache_sets
                        &&& c@.associativity == props.cache_associativity
                        &&& c@.lines == Seq::new(
                            (props.cache_sets * props.cache_associativity) as nat,
                            |k: int| cold_line(),
                        )
                        &&& c@.events == Seq::<Event>::empty()
                    },
            decreases props.num_processors - i,
        {
            let id = bus.register_processor();
            caches.push(Cache::new_cold(id, props.cache_associativity, props.cache_sets));
            i = i + 1;
        }
        let r = System { caches, memory, bus };
        proof {
            assert forall|q: int, k: int|
                0 <= q < r@.caches.len() && 0 <= k < r@.caches[q].lines.len() implies (
                #[trigger] r@.caches[q].lines[k]).state == CacheState::Invalid by {
                r.lemma_view_at(q);
            }
            lemma_cold_coherent(r@);
        }
        r
    }

    /// Handles `signal` as the arbiter does, end to end: propagates it to
    /// every other controller, which reacts on its cache and replies to a
    /// read miss, then finishes it with the replies. Returns the answer to a
    /// read miss.
    fn dispatch(&mut self, signal: &BusSignal) -> (r: Option<(CacheState, Data)>)
        requires
            old(self).wf(),
            old(self)@.signal_ok(*signal),
        ensures
            final(self).wf(),
            final(self)@ == old(self)@.after_signal(*signal),
            signal.action is ReadMiss ==> r == Some(old(self)@.answer(*signal)),
    {
        let ghost v0 = self@;
        let n = self.caches.len();
        let mut replies: Vec<Option<Data>> = Vec::new();
        if let BusAction::WriteMem(_) = signal.action {
        } else {
            let mut q: usize = 0;
            while q < n
                invariant
                    n == self.caches.len(),
                    n == v0.caches.len(),
                    v0.wf(),
                    v0.backed(),
                    v0.signal_ok(*signal),
                    signal.action !is WriteMem,
                    q <= n,
                    self.bus.count() == n,
                    self.memory@ == v0.memory,
                    forall|j: int| 0 <= j < n ==> (#[trigger] self.caches@[j]).inv(),
                    forall|j: int|
                        0 <= j < n ==> #[trigger] self.caches@[j]@ == (if j < q && j
                            != signal.origin {
                            snooped(v0.caches[j], *signal)
                        } else {
                            v0.caches[j]
                        }),
                    signal.action is ReadMiss ==> replies@ == others(q as nat, signal.origin).map_values(
                        |j: usize| snoop_word(v0.caches[j as int], signal.address),
                    ),
                decreases n - q,
            {
                proof {
                    assert(self.caches@[q as int]@ == v0.caches[q as int]);
                    lemma_snooped_lines(v0.caches[q as int], *signal);
                }
                if q != signal.origin {
                    let reply = controller_handle_signal(&mut self.caches[q], signal);
                    if let Some(word) = reply {
                        replies.push(word);
                    }
                }
                proof {
                    let w = |j: usize| snoop_word(v0.caches[j as int], signal.address);
                    if signal.action is ReadMiss {
                        assert(replies@ =~= others((q + 1) as nat, signal.origin).map_values(w));
                    }
                }
                q = q + 1;
            }
        }
        let r = self.bus.handle_signal(signal, &replies, &mut self.memory);
        proof {
            let v1 = v0.after_signal(*signal);
            assert(self@.caches =~= v1.caches);
            assert(self@ == v1);
            assert forall|j: int| 0 <= j < n implies (#[trigger] v1.caches[j]).wf() by {
                if signal.action !is WriteMem {
                    lemma_snooped_lines(v0.caches[j], *signal);
                }
            }
            assert forall|j: int, k: int|
                0 <= j < v1.caches.len() && 0 <= k < v1.caches[j].lines.len()
                    && (#[trigger] v1.caches[j].lines[k]).state != CacheState::Invalid
                    implies v1.memory.valid_address(
                v1.caches[j].line_address(
                    v1.caches[j].lines[k].tag,
                    (k / v1.caches[j].associativity as int) as usize,
                ),
            ) by {
                if signal.action !is WriteMem {
                    lemma_snooped_lines(v0.caches[j], *signal);
                }
                assert(v0.caches[j].lines[k].state != CacheState::Invalid);
            }
            if signal.action is ReadMiss {
                assert(replies@ =~= v0.replies(*signal));
            }
        }
        r
    }

    /// Processor `p` executes `instruction`; every signal it sends is handled
    /// by the arbiter before the next, and the answer to a read miss
    /// completes the read.
    pub fn execute(&mut self, p: usize, instruction: Instruction) -> (r: Trace)
        requires
            old(self).wf(),
            p < old(self)@.caches.len(),
            old(self)@.valid_instruction(instruction),
        ensures
            final(self).wf(),
            final(self)@ == old(self)@.executed(p as int, instruction),
            r.alert == old(self)@.alert(p as int, instruction),
            r.signals@ == old(self)@.sent(p as int, instruction),
            coherent(old(self)@) && benign(old(self)@, p as int, instruction) ==> coherent(
                final(self)@,
            ),
            coherent(old(self)@) && sharers_ok(old(self)@) && benign(old(self)@, p as int, instruction)
                && keeps_sharers(old(self)@, p as int, instruction) ==> sharers_ok(final(self)@),
            coherent(old(self)@) && benign(old(self)@, p as int, instruction) ==> forall|
                q: int,
                b: usize,
            |
                0 <= q < old(self)@.caches.len() && old(self)@.caches[0].valid_address(b)
                    ==> allowed(
                    line_event(old(self)@, p as int, instruction, q, b),
                    state_of(old(self)@.caches[q], b),
                    #[trigger] state_of(final(self)@.caches[q], b),
                ),
    {
        proof {
            if coherent(self@) && benign(self@, p as int, instruction) {
                lemma_execute_coherent(self@, p as int, instruction);
                lemma_execute_transitions(self@, p as int, instruction);
                if sharers_ok(self@) && keeps_sharers(self@, p as int, instruction) {
                    lemma_execute_sharers(self@, p as int, instruction);
                }
            }
        }
        let ghost v0 = self@;
        let ghost c0 = v0.caches[p as int];
        proof {
            self.lemma_view_at(p as int);
        }
        let step = cpu_execute_instruction(&mut self.caches[p], instruction, p);
        let mut sent: Vec<BusSignal> = Vec::new();
        match instruction {
            Instruction::Read { address } => {
                assert(self@.caches =~= v0.caches);
                if step.awaits_data {
                    let signal = BusSignal { origin: p, address, action: BusAction::ReadMiss };
                    sent.push(signal);
                    let answer = self.dispatch(&signal);
                    let ghost v1 = self@;
                    proof {
                        lemma_after_signal_frame(v0, signal);
                        self.lemma_view_at(p as int);
                        lemma_stored_wf(v1, p as int, address, answer.unwrap().0, answer.unwrap().1);
                    }
                    if let Some((state, data)) = answer {
                        let wb = cpu_complete_read(&mut self.caches[p], address, state, data, p);
                        let ghost v2 = self@;
                        proof {
                            assert(v2.caches =~= v1.with_cache(
                                p as int,
                                v1.caches[p as int].stored(address, state, data),
                            ).caches);
                        }
                        proof {
                            let ghost target = v1.with_cache(
                                p as int,
                                v1.caches[p as int].stored(address, state, data),
                            );
                            assert(v2 == target);
                            assert(target.after_signals(Seq::<BusSignal>::empty()) == target);
                        }
                        if let Some(s) = wb {
                            proof {
                                let c1 = v1.caches[p as int];
                                lemma_victim_exists(c1, address);
                                lemma_set_bounds(
                                    c1.index(address) as int,
                                    c1.sets as int,
                                    c1.associativity as int,
                                );
                                lemma_slot_set(c1, address, c1.victim(address));
                                assert(c1.lines[c1.victim(address)].state != CacheState::Invalid);
                            }
                            sent.push(s);
                            self.dispatch(&s);
                            proof {
                                assert(seq![s].drop_first() =~= Seq::<BusSignal>::empty());
                                assert(seq![s][0] == s);
                                assert(v2.after_signal(s).after_signals(Seq::<BusSignal>::empty())
                                    == v2.after_signal(s));
                                assert(v2.after_signals(seq![s]) == v2.after_signal(s));
                            }
                        }
                    }
                }
            },
            Instruction::Write { address, data } => {
                let ghost v1 = self@;
                proof {
                    assert(v1.caches =~= v0.with_cache(
                        p as int,
                        c0.stored(address, CacheState::Modified, data),
                    ).caches);
                    lemma_stored_wf(v0, p as int, address, CacheState::Modified, data);
                    lemma_victim_exists(c0, address);
                    lemma_set_bounds(c0.index(address) as int, c0.sets as int, c0.associativity as int);
                    lemma_slot_set(c0, address, c0.victim(address));
                }
                let mut k: usize = 0;
                while k < step.signals.len()
                    invariant
                        self.wf(),
                        k <= step.signals@.len(),
                        step.signals@ == write_signals(c0, address, p),
                        sent@ == step.signals@.subrange(0, k as int),
                        self@ == v1.after_signals(step.signals@.subrange(0, k as int)),
                        self@.caches.len() == v0.caches.len(),
                        self@.memory.blocks == v0.memory.blocks,
                        self@.memory.offset_bits == v0.memory.offset_bits,
                        self@.caches[0].sets == v0.caches[0].sets,
                        self@.caches[0].associativity == v0.caches[0].associativity,
                        self@.caches[0].offset_bits == v0.caches[0].offset_bits,
                        self@.caches[0].index_bits == v0.caches[0].index_bits,
                        forall|j: int|
                            0 <= j < step.signals@.len() ==> v0.signal_ok(
                                #[trigger] step.signals@[j],
                            ),
                    decreases step.signals@.len() - k,
                {
                    let s = step.signals[k];
                    proof {
                        assert(v0.signal_ok(s));
                        lemma_after_signal_frame(self@, s);
                        lemma_after_signals_push(v1, step.signals@.subrange(0, k as int), s);
                        assert(step.signals@.subrange(0, k as int + 1) =~= step.signals@.subrange(
                            0,
                            k as int,
                        ).push(s));
                    }
                    sent.push(s);
                    self.dispatch(&s);
                    k = k + 1;
                }
                proof {
                    assert(step.signals@.subrange(0, k as int) =~= step.signals@);
                }
            },
            Instruction::Calc => {
                assert(self@.caches =~= v0.caches);
            },
        }
        Trace { alert: step.alert, signals: sent }
    }

    /// Hands out the events recorded since the last call: those of each
    /// cache in processor order, then those of main memory.
    pub fn take_events(&mut self) -> (r: Vec<Event>)
        requires
            old(self).wf(),
        ensures
            final(self).wf(),
            r@ == cache_events(old(self)@.caches, old(self)@.caches.len()) + old(self)@.memory.events,
            final(self)@.caches.len() == old(self)@.caches.len(),
            forall|q: int|
                0 <= q < old(self)@.caches.len() ==> #[trigger] final(self)@.caches[q] == (CacheView {
                    events: Seq::empty(),
                    ..old(self)@.caches[q]
                }),
            final(self)@.memory == (MemoryView { events: Seq::empty(), ..old(self)@.memory }),
    {
        let ghost v0 = self@;
        let n = self.caches.len();
        let mut out: Vec<Event> = Vec::new();
        let mut q: usize = 0;
        while q < n
            invariant
                n == self.caches.len(),
                n == v0.caches.len(),
                q <= n,
                self.bus.count() == n,
                self.memory@ == v0.memory,
                forall|j: int| 0 <= j < n ==> (#[trigger] self.caches@[j]).inv(),
                forall|j: int|
                    0 <= j < n ==> #[trigger] self.caches@[j]@ == (if j < q {
                        CacheView { events: Seq::empty(), ..v0.caches[j] }
                    } else {
                        v0.caches[j]
                    }),
                out@ == cache_events(v0.caches, q as nat),
                v0.wf(),
            decreases n - q,
        {
            proof {
                assert(self.caches@[q as int]@ == v0.caches[q as int]);
            }
            let mut taken = self.caches[q].take_events();
            out.append(&mut taken);
            q = q + 1;
        }
        let mut taken = self.memory.take_events();
        out.append(&mut taken);
        proof {
            let v1 = self@;
            assert(v1.caches =~= Seq::new(
                n as nat,
                |j: int| CacheView { events: Seq::empty(), ..v0.caches[j] },
            ));
            assert forall|j: int, k: int|
                0 <= j < v1.caches.len() && 0 <= k < v1.caches[j].lines.len()
                    && (#[trigger] v1.caches[j].lines[k]).state != CacheState::Invalid
                    implies v1.memory.valid_address(
                v1.caches[j].line_address(
                    v1.caches[j].lines[k].tag,
                    (k / v1.caches[j].associativity as int) as usize,
                ),
            ) by {
                assert(v0.caches[j].lines[k] == v1.caches[j].lines[k]);
            }
        }
        out
    }

    /// Number of processors.
    pub fn processors(&self) -> (r: usize)
        requires
            self.wf(),
        ensures
            r == self@.caches.len(),
    {
        self.caches.len()
    }

    /// The cache of processor `i`.
    pub fn cache(&self, i: usize) -> (r: &Cache)
        requires
            self.wf(),
            i < self@.caches.len(),
        ensures
            r@ == self@.caches[i as int],
    {
        &self.caches[i]
    }

    /// Main memory.
    pub fn memory(&self) -> (r: &Memory)
        ensures
            r@ == self@.memory,
    {
        &self.memory
    }
}

} // verus!
