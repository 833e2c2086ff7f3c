//! Coherence of the private caches: what the protocol keeps true of every
//! block across the caches, proved over the machine's abstract state.

use vstd::prelude::*;

use crate::cache::{
    lemma_hit_slot_is, lemma_set_bounds, lemma_slot_set, lemma_victim_exists, CacheLine,
    CacheState, CacheView,
};
use crate::processor::evicted_address;
use crate::bus::{last_supplied, lemma_others_len, others, BusAction, BusSignal};
use crate::instructions::Instruction;
use crate::processor::{evicted, opt_seq, snooped, write_back, write_signals};
use crate::system::{lemma_after_signal_frame, snoop_word, SystemView};
use crate::Data;

verus! {

/// State in which a cache holds the block of `a` (invalid when it holds
/// none).
pub open spec fn state_of(c: CacheView, a: usize) -> CacheState {
    match c.lookup(a) {
        Some(l) => l.state,
        None => CacheState::Invalid,
    }
}

/// Addresses `a` and `b` name the same block.
pub open spec fn same_block(c: CacheView, a: usize, b: usize) -> bool {
    c.tag(a) == c.tag(b) && c.index(a) == c.index(b)
}

/// No block has two valid copies in the cache.
pub open spec fn single(c: CacheView) -> bool {
    forall|b: usize, i: int, j: int|
        c.valid_address(b) && #[trigger] c.is_hit(b, i) && #[trigger] c.is_hit(b, j) ==> i == j
}

/// With a single copy, the copy found is the state held.
pub proof fn lemma_state_of_hit(c: CacheView, b: usize, i: int)
    requires
        single(c),
        c.valid_address(b),
        c.is_hit(b, i),
    ensures
        state_of(c, b) == c.lines[i].state,
        c.lookup(b) == Some(c.lines[i]),
{
    assert forall|j: int| c.set_start(b) <= j < i implies !c.is_hit(b, j) by {
        if c.is_hit(b, j) {
            assert(i == j);
        }
    }
    assert(c.is_first_hit(b, i));
    lemma_hit_slot_is(c, b, i);
}

/// Without a valid copy the block is held invalid.
pub proof fn lemma_state_of_none(c: CacheView, b: usize)
    requires
        forall|i: int| !c.is_hit(b, i),
    ensures
        state_of(c, b) == CacheState::Invalid,
        c.lookup(b) == None::<CacheLine>,
{
}

/// A block held valid has a valid copy.
pub proof fn lemma_state_of_copy(c: CacheView, b: usize) -> (i: int)
    requires
        c.lookup(b) is Some,
    ensures
        c.is_hit(b, i),
        c.lookup(b) == Some(c.lines[i]),
        state_of(c, b) == c.lines[i].state,
        state_of(c, b) != CacheState::Invalid,
{
    let i = c.hit_slot(b)->0;
    assert(c.is_first_hit(b, i));
    i
}

/// The slots of the set of a valid address lie inside the cache.
pub proof fn lemma_in_bounds(c: CacheView, b: usize, i: int)
    requires
        c.wf(),
        c.valid_address(b),
        c.in_set(b, i),
    ensures
        0 <= i < c.lines.len(),
{
    lemma_set_bounds(c.index(b) as int, c.sets as int, c.associativity as int);
}

/// A slot lies in the sets of two addresses only when they share an index.
pub proof fn lemma_shared_slot(c: CacheView, a: usize, b: usize, i: int)
    requires
        c.wf(),
        c.in_set(a, i),
        c.in_set(b, i),
    ensures
        c.index(a) == c.index(b),
{
    lemma_slot_set(c, a, i);
    lemma_slot_set(c, b, i);
}

/// Storing over the victim for `a`, when every valid copy of that block is
/// the victim itself: the cache keeps single copies, holds the block of `a`
/// in the stored state, and for every other block either keeps its state or
/// has lost it.
pub proof fn lemma_stored_states(c: CacheView, a: usize, state: CacheState, data: Data)
    requires
        c.wf(),
        single(c),
        c.valid_address(a),
        state != CacheState::Invalid,
        forall|i: int| #[trigger] c.is_hit(a, i) ==> i == c.victim(a),
    ensures
        ({
            let n = c.stored(a, state, data);
            &&& n.wf()
            &&& single(n)
            &&& state_of(n, a) == state
            &&& forall|b: usize|
                #![trigger state_of(n, b)]
                c.valid_address(b) ==> if same_block(c, a, b) {
                    state_of(n, b) == state
                } else if c.is_hit(b, c.victim(a)) {
                    state_of(n, b) == CacheState::Invalid
                } else {
                    state_of(n, b) == state_of(c, b)
                }
        }),
{
    let n = c.stored(a, state, data);
    lemma_victim_exists(c, a);
    lemma_set_bounds(c.index(a) as int, c.sets as int, c.associativity as int);
    let v = c.victim(a);
    assert(n.lines[v] == CacheLine { state, tag: c.tag(a), data });
    assert forall|b: usize, i: int| c.valid_address(b) && #[trigger] n.is_hit(b, i) implies (i == v
        && same_block(c, a, b)) || (i != v && c.is_hit(b, i)) by {
        lemma_in_bounds(c, b, i);
        if i == v {
            lemma_shared_slot(c, a, b, v);
        } else {
            assert(n.lines[i] == c.lines[i]);
        }
    }
    assert forall|b: usize, i: int|
        c.valid_address(b) && i != v && #[trigger] c.is_hit(b, i) implies n.is_hit(b, i) by {
        lemma_in_bounds(c, b, i);
        assert(n.lines[i] == c.lines[i]);
    }
    assert(n.is_hit(a, v));
    assert forall|b: usize, i: int, j: int|
        n.valid_address(b) && #[trigger] n.is_hit(b, i) && #[trigger] n.is_hit(b, j) implies i
        == j by {
        if same_block(c, a, b) {
            if i != v {
                assert(c.is_hit(a, i));
            }
            if j != v {
                assert(c.is_hit(a, j));
            }
        } else {
            assert(c.is_hit(b, i));
            assert(c.is_hit(b, j));
        }
    }
    lemma_state_of_hit(n, a, v);
    assert forall|b: usize| #![trigger state_of(n, b)] c.valid_address(b) implies if same_block(
        c,
        a,
        b,
    ) {
        state_of(n, b) == state
    } else if c.is_hit(b, c.victim(a)) {
        state_of(n, b) == CacheState::Invalid
    } else {
        state_of(n, b) == state_of(c, b)
    } by {
        if same_block(c, a, b) {
            assert(n.is_hit(b, v));
            lemma_state_of_hit(n, b, v);
        } else if n.lookup(b) is Some {
            let i = lemma_state_of_copy(n, b);
            lemma_in_bounds(c, b, i);
            assert(c.is_hit(b, i));
            lemma_state_of_hit(c, b, i);
            assert(n.lines[i] == c.lines[i]);
            if c.is_hit(b, v) {
                assert(i == v);
            }
        } else {
            assert forall|i: int| c.is_hit(b, i) implies i == v by {
                if i != v {
                    assert(n.is_hit(b, i));
                    lemma_state_of_hit(n, b, i);
                }
            }
            if !c.is_hit(b, v) {
                assert forall|i: int| !c.is_hit(b, i) by {}
                lemma_state_of_none(c, b);
            }
        }
    }
}

/// Invalidating `a` drops the block of `a` and leaves every other block as
/// it was.
pub proof fn lemma_invalidated_states(c: CacheView, a: usize)
    requires
        c.wf(),
        single(c),
        c.valid_address(a),
    ensures
        ({
            let n = c.invalidated(a);
            &&& single(n)
            &&& forall|b: usize|
                #![trigger state_of(n, b)]
                c.valid_address(b) ==> if same_block(c, a, b) {
                    state_of(n, b) == CacheState::Invalid
                } else {
                    state_of(n, b) == state_of(c, b)
                }
        }),
{
    let n = c.invalidated(a);
    assert forall|b: usize, i: int| c.valid_address(b) && #[trigger] n.is_hit(b, i) implies c.is_hit(
        b,
        i,
    ) && !same_block(c, a, b) by {
        lemma_in_bounds(c, b, i);
        assert(n.lines[i] == c.invalidated_line(a, i));
    }
    assert forall|b: usize, i: int|
        c.valid_address(b) && !same_block(c, a, b) && #[trigger] c.is_hit(b, i) implies n.is_hit(
        b,
        i,
    ) by {
        lemma_in_bounds(c, b, i);
        assert(n.lines[i] == c.invalidated_line(a, i));
        if c.in_set(a, i) && c.lines[i].tag == c.tag(a) {
            lemma_shared_slot(c, a, b, i);
        }
    }
    assert forall|b: usize, i: int, j: int|
        n.valid_address(b) && #[trigger] n.is_hit(b, i) && #[trigger] n.is_hit(b, j) implies i
        == j by {
        assert(c.is_hit(b, i));
        assert(c.is_hit(b, j));
    }
    assert forall|b: usize| #![trigger state_of(n, b)] c.valid_address(b) implies if same_block(
        c,
        a,
        b,
    ) {
        state_of(n, b) == CacheState::Invalid
    } else {
        state_of(n, b) == state_of(c, b)
    } by {
        if same_block(c, a, b) {
            assert forall|i: int| !n.is_hit(b, i) by {
                if n.is_hit(b, i) {
                    assert(!same_block(c, a, b));
                }
            }
            lemma_state_of_none(n, b);
        } else if c.lookup(b) is Some {
            let i = lemma_state_of_copy(c, b);
            lemma_in_bounds(c, b, i);
            assert(n.is_hit(b, i));
            assert(n.lines[i] == c.invalidated_line(a, i));
            lemma_state_of_hit(n, b, i);
        } else {
            assert forall|i: int| !n.is_hit(b, i) by {
                if n.is_hit(b, i) {
                    lemma_state_of_hit(c, b, i);
                }
            }
            lemma_state_of_none(n, b);
        }
    }
}

/// Moving the copy of `a` to another valid state changes the state held for
/// that block only.
pub proof fn lemma_state_changed_states(c: CacheView, a: usize, state: CacheState)
    requires
        c.wf(),
        single(c),
        c.valid_address(a),
        state != CacheState::Invalid,
    ensures
        ({
            let n = c.state_changed(a, state);
            &&& single(n)
            &&& forall|b: usize|
                #![trigger state_of(n, b)]
                c.valid_address(b) ==> if same_block(c, a, b) && c.lookup(a) is Some {
                    state_of(n, b) == state
                } else {
                    state_of(n, b) == state_of(c, b)
                }
        }),
{
    let n = c.state_changed(a, state);
    if c.lookup(a) is Some {
        let h = lemma_state_of_copy(c, a);
        lemma_set_bounds(c.index(a) as int, c.sets as int, c.associativity as int);
        assert(c.hit_slot(a) == Some(h));
        assert forall|b: usize, i: int| c.valid_address(b) implies #[trigger] n.is_hit(b, i)
            == c.is_hit(b, i) by {
            if c.in_set(b, i) {
                lemma_in_bounds(c, b, i);
                if i != h {
                    assert(n.lines[i] == c.lines[i]);
                }
            }
        }
        assert forall|b: usize| #![trigger state_of(n, b)] c.valid_address(b) implies if same_block(
            c,
            a,
            b,
        ) && c.lookup(a) is Some {
            state_of(n, b) == state
        } else {
            state_of(n, b) == state_of(c, b)
        } by {
            if same_block(c, a, b) {
                assert(n.is_hit(b, h));
                lemma_state_of_hit(n, b, h);
            } else if c.lookup(b) is Some {
                let i = lemma_state_of_copy(c, b);
                if i == h {
                    lemma_shared_slot(c, a, b, h);
                }
                lemma_in_bounds(c, b, i);
                lemma_state_of_hit(n, b, i);
                assert(n.lines[i] == c.lines[i]);
            } else {
                assert forall|i: int| !n.is_hit(b, i) by {
                    if n.is_hit(b, i) {
                        lemma_state_of_hit(c, b, i);
                    }
                }
                lemma_state_of_none(n, b);
            }
        }
    }
}

/// Two addresses of one block are held in one state.
pub proof fn lemma_same_block_state(c: CacheView, a: usize, b: usize)
    requires
        c.wf(),
        single(c),
        c.valid_address(a),
        same_block(c, a, b),
    ensures
        state_of(c, a) == state_of(c, b),
{
    if c.lookup(a) is Some {
        let i = lemma_state_of_copy(c, a);
        assert(c.is_hit(b, i));
        lemma_state_of_hit(c, b, i);
    } else {
        assert forall|i: int| !c.is_hit(b, i) by {
            if c.is_hit(b, i) {
                assert(c.is_hit(a, i));
                lemma_state_of_hit(c, a, i);
            }
        }
        lemma_state_of_none(c, b);
    }
}

/// A state that claims the block: modified, exclusive or owned.
pub open spec fn strong(s: CacheState) -> bool {
    s == CacheState::Modified || s == CacheState::Exclusive || s == CacheState::Owned
}

/// At most one cache holds a block modified, exclusive or owned, and a
/// block held modified is held nowhere else.
pub open spec fn claims_ok(v: SystemView) -> bool {
    forall|a: usize, q1: int, q2: int|
        v.caches[0].valid_address(a) && 0 <= q1 < v.caches.len() && 0 <= q2 < v.caches.len()
            && q1 != q2 ==> {
            &&& !(strong(#[trigger] state_of(v.caches[q1], a)) && strong(
                #[trigger] state_of(v.caches[q2], a),
            ))
            &&& (state_of(v.caches[q1], a) == CacheState::Modified ==> state_of(v.caches[q2], a)
                == CacheState::Invalid)
        }
}

/// A block held exclusive is held nowhere else.
pub open spec fn exclusive_alone(v: SystemView) -> bool {
    forall|a: usize, q1: int, q2: int|
        v.caches[0].valid_address(a) && 0 <= q1 < v.caches.len() && 0 <= q2 < v.caches.len()
            && q1 != q2 && #[trigger] state_of(v.caches[q1], a) == CacheState::Exclusive
            ==> #[trigger] state_of(v.caches[q2], a) == CacheState::Invalid
}

/// No cache holds two valid copies of a block.
pub open spec fn copies_single(v: SystemView) -> bool {
    forall|q: int| 0 <= q < v.caches.len() ==> single(#[trigger] v.caches[q])
}

/// The coherence invariant of the machine.
pub open spec fn coherent(v: SystemView) -> bool {
    claims_ok(v) && exclusive_alone(v) && copies_single(v)
}

/// Processor `p` can execute `i` without breaking coherence: a write leaves
/// no second valid copy of its block beside the one it stores, and does not
/// overwrite a modified line of another block (which sends no invalidation)
/// while a peer holds the block written.
pub open spec fn benign(v: SystemView, p: int, i: Instruction) -> bool {
    match i {
        Instruction::Write { address, .. } => {
            let c = v.caches[p];
            &&& forall|k: int| #[trigger] c.is_hit(address, k) ==> k == c.victim(address)
            &&& (evicted(c, address).state == CacheState::Modified && evicted(c, address).tag
                != c.tag(address)) ==> forall|q: int|
                0 <= q < v.caches.len() && q != p ==> #[trigger] state_of(v.caches[q], address)
                    == CacheState::Invalid
        },
        _ => true,
    }
}

/// All caches of a well-formed machine split addresses alike.
pub proof fn lemma_same_geometry(v: SystemView, q: int, a: usize)
    requires
        v.wf(),
        0 <= q < v.caches.len(),
    ensures
        v.caches[q].valid_address(a) == v.caches[0].valid_address(a),
        v.caches[q].tag(a) == v.caches[0].tag(a),
        v.caches[q].index(a) == v.caches[0].index(a),
{
    assert(v.caches[q].wf());
    assert(v.caches[0].wf());
}

/// Write-backs leave every cache as it was.
pub proof fn lemma_write_mems_keep_caches(v: SystemView, signals: Seq<BusSignal>)
    requires
        forall|k: int| 0 <= k < signals.len() ==> (#[trigger] signals[k]).action is WriteMem,
    ensures
        v.after_signals(signals).caches == v.caches,
        v.after_signals(signals).caches.len() == v.caches.len(),
    decreases signals.len(),
{
    if signals.len() > 0 {
        assert(signals[0].action is WriteMem);
        let rest = signals.drop_first();
        assert forall|k: int| 0 <= k < rest.len() implies (#[trigger] rest[k]).action is WriteMem by {
            assert(rest[k] == signals[k + 1]);
        }
        lemma_write_mems_keep_caches(v.after_signal(signals[0]), rest);
    }
}

proof fn lemma_opt_write_back(o: Option<BusSignal>, line: CacheLine, address: usize, p: usize)
    requires
        o == write_back(line, address, p),
    ensures
        forall|k: int| 0 <= k < opt_seq(o).len() ==> (#[trigger] opt_seq(o)[k]).action is WriteMem,
{
}

proof fn lemma_last_supplied_none(replies: Seq<Option<Data>>)
    ensures
        last_supplied(replies) is None <==> forall|k: int|
            0 <= k < replies.len() ==> (#[trigger] replies[k]) is None,
    decreases replies.len(),
{
    if replies.len() > 0 {
        lemma_last_supplied_none(replies.drop_last());
        if last_supplied(replies) is None {
            assert forall|k: int| 0 <= k < replies.len() implies (#[trigger] replies[k]) is None by {
                if k < replies.len() - 1 {
                    assert(replies.drop_last()[k] == replies[k]);
                }
            }
        } else {
            if replies.last() is None {
                let k = choose|k: int| 0 <= k < replies.drop_last().len() && (#[trigger] replies.drop_last()[k]) is Some;
                assert(replies[k] == replies.drop_last()[k]);
            }
        }
    }
}

proof fn lemma_others_has(n: nat, origin: usize, q: int)
    requires
        n <= usize::MAX,
        0 <= q < n,
        q != origin,
    ensures
        exists|k: int| 0 <= k < others(n, origin).len() && others(n, origin)[k] == q,
    decreases n,
{
    let prev = others((n - 1) as nat, origin);
    if q < n - 1 {
        lemma_others_has((n - 1) as nat, origin, q);
        let k = choose|k: int| 0 <= k < prev.len() && prev[k] == q;
        assert(others(n, origin)[k] == q);
    } else {
        assert(others(n, origin)[prev.len() as int] == q);
    }
}

/// A peer supplies the word of a read miss exactly when some peer holds the
/// block.
pub proof fn lemma_supplied_iff_held(v: SystemView, s: BusSignal)
    requires
        v.wf(),
        (s.origin as int) < v.caches.len(),
    ensures
        last_supplied(v.replies(s)) is None <==> forall|q: int|
            0 <= q < v.caches.len() && q != s.origin ==> (#[trigger] v.caches[q]).lookup(s.address)
                is None,
{
    let n = v.caches.len();
    let r = v.replies(s);
    let o = others(n, s.origin);
    lemma_others_len(n, s.origin);
    lemma_last_supplied_none(r);
    if last_supplied(r) is None {
        assert forall|q: int| 0 <= q < n && q != s.origin implies (#[trigger] v.caches[q]).lookup(
            s.address,
        ) is None by {
            lemma_others_has(n, s.origin, q);
            let k = choose|k: int| 0 <= k < o.len() && o[k] == q;
            assert(r[k] == snoop_word(v.caches[q], s.address));
        }
    } else {
        let k = choose|k: int| 0 <= k < r.len() && (#[trigger] r[k]) is Some;
        assert(r[k] == snoop_word(v.caches[o[k] as int], s.address));
        assert(v.caches[o[k] as int].lookup(s.address) is Some);
    }
}

/// Coherence holds of a machine whose lines are all invalid.
pub proof fn lemma_cold_coherent(v: SystemView)
    requires
        v.wf(),
        forall|q: int, k: int|
            0 <= q < v.caches.len() && 0 <= k < v.caches[q].lines.len() ==> (
            #[trigger] v.caches[q].lines[k]).state == CacheState::Invalid,
    ensures
        coherent(v),
        sharers_ok(v),
{
    assert forall|q: int, a: usize| 0 <= q < v.caches.len() && v.caches[0].valid_address(a) implies #[trigger] state_of(
        v.caches[q],
        a,
    ) == CacheState::Invalid && single(v.caches[q]) by {
        let c = v.caches[q];
        lemma_same_geometry(v, q, a);
        assert forall|b: usize, i: int| c.valid_address(b) implies !c.is_hit(b, i) by {
            if c.is_hit(b, i) {
                lemma_in_bounds(c, b, i);
            }
        }
        if c.lookup(a) is Some {
            let i = lemma_state_of_copy(c, a);
        }
    }
    assert forall|q: int| 0 <= q < v.caches.len() implies single(#[trigger] v.caches[q]) by {
        let c = v.caches[q];
        assert forall|b: usize, i: int| c.valid_address(b) implies !c.is_hit(b, i) by {
            if c.is_hit(b, i) {
                lemma_in_bounds(c, b, i);
            }
        }
    }
}

/// State a peer moves to when it supplies a read miss.
pub open spec fn promoted(s: CacheState) -> CacheState {
    if s == CacheState::Exclusive || s == CacheState::Modified {
        CacheState::Owned
    } else {
        s
    }
}

/// The states every cache holds after processor `p` misses on a read of
/// `a`: the peers that held the block and could claim it now own it, `p`
/// holds it shared when a peer held it and exclusive otherwise, and `p`
/// has lost the block its victim held.
pub proof fn lemma_read_miss_states(v: SystemView, p: int, a: usize)
    requires
        v.wf(),
        coherent(v),
        0 <= p < v.caches.len(),
        v.valid_address(a),
        v.caches[p].lookup(a) is None,
    ensures
        ({
            let n = v.caches.len();
            let c = v.caches[p];
            let st = v.answer(BusSignal { origin: p as usize, address: a, action: BusAction::ReadMiss }).0;
            let f = v.executed(p, Instruction::Read { address: a });
            &&& f.caches.len() == n
            &&& forall|b: usize| #[trigger] f.caches[0].valid_address(b) == v.caches[0].valid_address(b)
            &&& copies_single(f)
            &&& state_of(c, a) == CacheState::Invalid
            &&& st == CacheState::Shared || st == CacheState::Exclusive
            &&& st == CacheState::Exclusive ==> forall|q: int|
                0 <= q < n && q != p ==> #[trigger] state_of(v.caches[q], a) == CacheState::Invalid
            &&& st == CacheState::Shared ==> exists|q: int|
                0 <= q < n && q != p && #[trigger] state_of(v.caches[q], a) != CacheState::Invalid
            &&& forall|q: int, b: usize|
                0 <= q < n && q != p && v.caches[0].valid_address(b) ==> #[trigger] state_of(
                    f.caches[q],
                    b,
                ) == (if same_block(c, a, b) {
                    promoted(state_of(v.caches[q], b))
                } else {
                    state_of(v.caches[q], b)
                })
            &&& forall|b: usize|
                v.caches[0].valid_address(b) ==> #[trigger] state_of(f.caches[p], b) == (if same_block(
                    c,
                    a,
                    b,
                ) {
                    st
                } else if c.is_hit(b, c.victim(a)) {
                    CacheState::Invalid
                } else {
                    state_of(c, b)
                })
            &&& forall|q: int, b: usize|
                0 <= q < n && v.caches[0].valid_address(b) && same_block(c, a, b) ==> #[trigger] state_of(
                    v.caches[q],
                    b,
                ) == state_of(v.caches[q], a)
        }),
{
    let n = v.caches.len();
    let c = v.caches[p];
    let s = BusSignal { origin: p as usize, address: a, action: BusAction::ReadMiss };
    let (st, w) = v.answer(s);
    let v1 = v.after_signal(s);
    assert(v1.caches[p] == c);
    let cp = c.stored(a, st, w);
    let v2 = v1.with_cache(p, cp);
    let wb = write_back(evicted(c, a), evicted_address(c, a), p as usize);
    lemma_opt_write_back(wb, evicted(c, a), evicted_address(c, a), p as usize);
    lemma_write_mems_keep_caches(v2, opt_seq(wb));
    let f = v.executed(p, Instruction::Read { address: a });
    assert(f.caches == v2.caches);
    lemma_same_geometry(v, p, a);
    assert(c.wf());
    assert(single(c));
    assert forall|k: int| #[trigger] c.is_hit(a, k) implies k == c.victim(a) by {
        lemma_state_of_hit(c, a, k);
    }
    lemma_supplied_iff_held(v, s);
    lemma_stored_states(c, a, st, w);
    if st == CacheState::Exclusive {
        assert forall|q: int| 0 <= q < n && q != p implies #[trigger] state_of(v.caches[q], a)
            == CacheState::Invalid by {}
    } else {
        let q = choose|q: int| 0 <= q < n && q != p && !((#[trigger] v.caches[q]).lookup(a) is None);
        lemma_state_of_copy(v.caches[q], a);
    }
    assert forall|q: int, b: usize|
        0 <= q < n && q != p && v.caches[0].valid_address(b) implies #[trigger] state_of(
        f.caches[q],
        b,
    ) == (if same_block(c, a, b) {
        promoted(state_of(v.caches[q], b))
    } else {
        state_of(v.caches[q], b)
    }) by {
        let cq = v.caches[q];
        lemma_same_geometry(v, q, a);
        lemma_same_geometry(v, q, b);
        assert(f.caches[q] == snooped(cq, s));
        if same_block(cq, a, b) {
            lemma_same_block_state(cq, a, b);
        }
        if state_of(cq, a) == CacheState::Exclusive || state_of(cq, a) == CacheState::Modified {
            lemma_state_changed_states(cq, a, CacheState::Owned);
        }
    }
    assert forall|q: int| 0 <= q < n implies single(#[trigger] f.caches[q]) by {
        if q != p {
            let cq = v.caches[q];
            lemma_same_geometry(v, q, a);
            if state_of(cq, a) == CacheState::Exclusive || state_of(cq, a)
                == CacheState::Modified {
                lemma_state_changed_states(cq, a, CacheState::Owned);
            }
        }
    }
    assert forall|q: int, b: usize|
        0 <= q < n && v.caches[0].valid_address(b) && same_block(c, a, b) implies #[trigger] state_of(
        v.caches[q],
        b,
    ) == state_of(v.caches[q], a) by {
        lemma_same_geometry(v, q, a);
        lemma_same_geometry(v, q, b);
        lemma_same_block_state(v.caches[q], a, b);
    }
    assert forall|b: usize| #[trigger] v.caches[0].valid_address(b) implies state_of(f.caches[p], b)
        == (if same_block(c, a, b) {
        st
    } else if c.is_hit(b, c.victim(a)) {
        CacheState::Invalid
    } else {
        state_of(c, b)
    }) by {
        lemma_same_geometry(v, p, b);
    }
    lemma_after_signal_frame(v, s);
    assert forall|b: usize| #[trigger] f.caches[0].valid_address(b) == v.caches[0].valid_address(b)
        by {
        lemma_same_geometry(v, 0, b);
    }
}

/// The states every cache holds after processor `p` writes `a` (when the
/// write is benign): `p` holds the block modified and has lost the block its
/// victim held, every peer has lost the block.
pub proof fn lemma_write_states(v: SystemView, p: int, a: usize, w: Data)
    requires
        v.wf(),
        coherent(v),
        0 <= p < v.caches.len(),
        v.valid_address(a),
        benign(v, p, Instruction::Write { address: a, data: w }),
    ensures
        ({
            let n = v.caches.len();
            let c = v.caches[p];
            let f = v.executed(p, Instruction::Write { address: a, data: w });
            &&& f.caches.len() == n
            &&& forall|b: usize| #[trigger] f.caches[0].valid_address(b) == v.caches[0].valid_address(b)
            &&& copies_single(f)
            &&& forall|q: int, b: usize|
                0 <= q < n && q != p && v.caches[0].valid_address(b) ==> #[trigger] state_of(
                    f.caches[q],
                    b,
                ) == (if same_block(c, a, b) {
                    CacheState::Invalid
                } else {
                    state_of(v.caches[q], b)
                })
            &&& forall|b: usize|
                v.caches[0].valid_address(b) ==> #[trigger] state_of(f.caches[p], b) == (if same_block(
                    c,
                    a,
                    b,
                ) {
                    CacheState::Modified
                } else if c.is_hit(b, c.victim(a)) {
                    CacheState::Invalid
                } else {
                    state_of(c, b)
                })
        }),
{
    let n = v.caches.len();
    let c = v.caches[p];
    lemma_same_geometry(v, p, a);
    assert(c.wf());
    assert(single(c));
    let cp = c.stored(a, CacheState::Modified, w);
    let v1 = v.with_cache(p, cp);
    let sigs = write_signals(c, a, p as usize);
    let e = evicted(c, a);
    let wb = write_back(e, evicted_address(c, a), p as usize);
    lemma_opt_write_back(wb, e, evicted_address(c, a), p as usize);
    lemma_victim_exists(c, a);
    lemma_set_bounds(c.index(a) as int, c.sets as int, c.associativity as int);
    lemma_stored_states(c, a, CacheState::Modified, w);
    let f = v.executed(p, Instruction::Write { address: a, data: w });
    let inv = BusSignal { origin: p as usize, address: a, action: BusAction::Invalidate };
    if e.state != CacheState::Modified {
        assert(sigs[0] == inv);
        assert(sigs.drop_first() =~= opt_seq(wb));
        let v2 = v1.after_signal(inv);
        lemma_write_mems_keep_caches(v2, opt_seq(wb));
        assert(f == v2.after_signals(opt_seq(wb)));
        assert(f.caches == v2.caches);
    } else {
        assert(sigs =~= opt_seq(wb));
        lemma_write_mems_keep_caches(v1, opt_seq(wb));
        assert(f.caches == v1.caches);
        if e.tag == c.tag(a) {
            assert(c.is_hit(a, c.victim(a)));
            lemma_state_of_hit(c, a, c.victim(a));
        }
        assert forall|q: int| 0 <= q < n && q != p implies #[trigger] state_of(v.caches[q], a)
            == CacheState::Invalid by {
            lemma_same_geometry(v, q, a);
        }
    }
    assert forall|q: int, b: usize|
        0 <= q < n && q != p && v.caches[0].valid_address(b) implies #[trigger] state_of(
        f.caches[q],
        b,
    ) == (if same_block(c, a, b) {
        CacheState::Invalid
    } else {
        state_of(v.caches[q], b)
    }) && single(f.caches[q]) by {
        let cq = v.caches[q];
        lemma_same_geometry(v, q, a);
        lemma_same_geometry(v, q, b);
        if e.state != CacheState::Modified {
            lemma_invalidated_states(cq, a);
        } else if same_block(cq, a, b) {
            lemma_same_block_state(cq, a, b);
        }
    }
    assert forall|q: int| 0 <= q < n implies single(#[trigger] f.caches[q]) by {
        if q != p {
            lemma_same_geometry(v, q, a);
            if e.state != CacheState::Modified {
                lemma_invalidated_states(v.caches[q], a);
            }
        }
    }
    assert forall|b: usize| #[trigger] v.caches[0].valid_address(b) implies state_of(f.caches[p], b)
        == (if same_block(c, a, b) {
        CacheState::Modified
    } else if c.is_hit(b, c.victim(a)) {
        CacheState::Invalid
    } else {
        state_of(c, b)
    }) by {
        lemma_same_geometry(v, p, b);
    }
    assert forall|b: usize| #[trigger] f.caches[0].valid_address(b) == v.caches[0].valid_address(b)
        by {
        lemma_same_geometry(v, 0, b);
        if p == 0 {
        } else if e.state != CacheState::Modified {
            lemma_invalidated_states(v.caches[0], a);
        }
    }
}

/// Executing a benign instruction on a coherent machine leaves it coherent:
/// at every quiescent moment at most one cache holds a block modified,
/// exclusive or owned, and a block held modified (or exclusive) is held by
/// no other cache.
pub proof fn lemma_execute_coherent(v: SystemView, p: int, i: Instruction)
    requires
        v.wf(),
        coherent(v),
        0 <= p < v.caches.len(),
        v.valid_instruction(i),
        benign(v, p, i),
    ensures
        coherent(v.executed(p, i)),
{
    match i {
        Instruction::Calc => {},
        Instruction::Read { address } => {
            if v.caches[p].lookup(address) is None {
                lemma_read_miss_states(v, p, address);
            }
        },
        Instruction::Write { address, data } => {
            lemma_write_states(v, p, address, data);
        },
    }
}

/// Some peer of cache `q` holds the block of `a` shared or owned.
pub open spec fn partnered(v: SystemView, a: usize, q: int) -> bool {
    exists|r: int|
        0 <= r < v.caches.len() && r != q && (state_of(v.caches[r], a) == CacheState::Shared
            || state_of(v.caches[r], a) == CacheState::Owned)
}

/// Every cache that holds a block shared has a peer that holds it shared or
/// owned.
pub open spec fn sharers_ok(v: SystemView) -> bool {
    forall|a: usize, q: int|
        v.caches[0].valid_address(a) && 0 <= q < v.caches.len() && state_of(v.caches[q], a)
            == CacheState::Shared ==> #[trigger] partnered(v, a, q)
}

/// The victim of a store for `a` in the cache of `p`, if it holds another
/// block shared or owned, holds a block that no peer holds shared.
pub open spec fn victim_unshared(v: SystemView, p: int, a: usize) -> bool {
    let c = v.caches[p];
    let vi = c.victim(a);
    (c.lines[vi].state == CacheState::Shared || c.lines[vi].state == CacheState::Owned) ==> forall|
        b: usize,
        q: int,
    |
        c.valid_address(b) && c.is_hit(b, vi) && !same_block(c, a, b) && 0 <= q < v.caches.len()
            && q != p ==> #[trigger] state_of(v.caches[q], b) != CacheState::Shared
}

/// Processor `p` can execute `i` without leaving a sharer alone: the line
/// that the instruction evicts is not the partner of a shared copy.
pub open spec fn keeps_sharers(v: SystemView, p: int, i: Instruction) -> bool {
    match i {
        Instruction::Calc => true,
        Instruction::Read { address } => v.caches[p].lookup(address) is None ==> victim_unshared(
            v,
            p,
            address,
        ),
        Instruction::Write { address, .. } => victim_unshared(v, p, address),
    }
}

proof fn lemma_read_miss_sharers(v: SystemView, p: int, address: usize)
    requires
        v.wf(),
        coherent(v),
        sharers_ok(v),
        0 <= p < v.caches.len(),
        v.valid_address(address),
        v.caches[p].lookup(address) is None,
        victim_unshared(v, p, address),
    ensures
        sharers_ok(v.executed(p, Instruction::Read { address })),
{
    let f = v.executed(p, Instruction::Read { address });
    let n = v.caches.len();
    let c = v.caches[p];
    lemma_read_miss_states(v, p, address);
    assert forall|b: usize, q: int|
        f.caches[0].valid_address(b) && 0 <= q < f.caches.len() && state_of(
            f.caches[q],
            b,
        ) == CacheState::Shared implies #[trigger] partnered(f, b, q) by {
        if same_block(c, address, b) {
            if q == p {
                let r = choose|r: int|
                    0 <= r < n && r != p && #[trigger] state_of(v.caches[r], address)
                        != CacheState::Invalid;
                assert(state_of(v.caches[r], b) == state_of(v.caches[r], address));
                assert(state_of(f.caches[r], b) == promoted(state_of(v.caches[r], b)));
            } else {
                assert(state_of(v.caches[q], b) == CacheState::Shared);
                assert(partnered(v, b, q));
                let r = choose|r: int|
                    0 <= r < n && r != q && (#[trigger] state_of(v.caches[r], b)
                        == CacheState::Shared || state_of(v.caches[r], b) == CacheState::Owned);
                assert(state_of(v.caches[p], b) == state_of(v.caches[p], address));
                assert(r != p);
                assert(state_of(f.caches[r], b) == promoted(state_of(v.caches[r], b)));
            }
        } else {
            assert(state_of(v.caches[q], b) == CacheState::Shared);
            assert(partnered(v, b, q));
            let r = choose|r: int|
                0 <= r < n && r != q && (#[trigger] state_of(v.caches[r], b) == CacheState::Shared
                    || state_of(v.caches[r], b) == CacheState::Owned);
            if r == p {
                lemma_same_geometry(v, p, b);
                if c.is_hit(b, c.victim(address)) {
                    lemma_state_of_hit(c, b, c.victim(address));
                    assert(state_of(v.caches[q], b) != CacheState::Shared);
                }
            }
            assert(state_of(f.caches[r], b) == state_of(v.caches[r], b));
        }
    }
}

proof fn lemma_write_sharers(v: SystemView, p: int, address: usize, data: Data)
    requires
        v.wf(),
        coherent(v),
        sharers_ok(v),
        0 <= p < v.caches.len(),
        v.valid_address(address),
        benign(v, p, Instruction::Write { address, data }),
        victim_unshared(v, p, address),
    ensures
        sharers_ok(v.executed(p, Instruction::Write { address, data })),
{
    let f = v.executed(p, Instruction::Write { address, data });
    let n = v.caches.len();
    let c = v.caches[p];
    lemma_write_states(v, p, address, data);
    assert forall|b: usize, q: int|
        f.caches[0].valid_address(b) && 0 <= q < f.caches.len() && state_of(
            f.caches[q],
            b,
        ) == CacheState::Shared implies #[trigger] partnered(f, b, q) by {
        if !same_block(c, address, b) {
            assert(state_of(v.caches[q], b) == CacheState::Shared);
            assert(partnered(v, b, q));
            let r = choose|r: int|
                0 <= r < n && r != q && (#[trigger] state_of(v.caches[r], b) == CacheState::Shared
                    || state_of(v.caches[r], b) == CacheState::Owned);
            if r == p {
                lemma_same_geometry(v, p, b);
                if c.is_hit(b, c.victim(address)) {
                    lemma_state_of_hit(c, b, c.victim(address));
                    assert(state_of(v.caches[q], b) != CacheState::Shared);
                }
            }
            assert(state_of(f.caches[r], b) == state_of(v.caches[r], b));
        }
    }
}

/// Executing an instruction that is benign and evicts no partner of a
/// shared copy keeps every shared copy partnered: a cache holding a block
/// shared has a peer holding it shared or owned.
pub proof fn lemma_execute_sharers(v: SystemView, p: int, i: Instruction)
    requires
        v.wf(),
        coherent(v),
        sharers_ok(v),
        0 <= p < v.caches.len(),
        v.valid_instruction(i),
        benign(v, p, i),
        keeps_sharers(v, p, i),
    ensures
        sharers_ok(v.executed(p, i)),
{
    match i {
        Instruction::Calc => {},
        Instruction::Read { address } => {
            if v.caches[p].lookup(address) is None {
                lemma_read_miss_sharers(v, p, address);
            }
        },
        Instruction::Write { address, data } => {
            lemma_write_sharers(v, p, address, data);
        },
    }
}

/// What a step does to one block in one cache, by the columns of the
/// protocol's transition table (plus eviction and no effect).
#[derive(Clone, Copy, Debug, PartialEq, Eq, Structural)]
pub enum LineEvent {
    LocalRead,
    LocalWrite,
    RemoteReadMiss,
    RemoteInvalidate,
    Eviction,
    Untouched,
}

/// The transitions the protocol table allows for each event.
pub open spec fn allowed(e: LineEvent, from: CacheState, to: CacheState) -> bool {
    match e {
        LineEvent::LocalRead => if from == CacheState::Invalid {
            to == CacheState::Exclusive || to == CacheState::Shared
        } else {
            to == from
        },
        LineEvent::LocalWrite => to == CacheState::Modified,
        LineEvent::RemoteReadMiss => to == promoted(from),
        LineEvent::RemoteInvalidate => to == CacheState::Invalid,
        LineEvent::Eviction => to == CacheState::Invalid,
        LineEvent::Untouched => to == from,
    }
}

/// The event that processor `p` executing `i` is for the block of `b` in
/// cache `q`.
pub open spec fn line_event(v: SystemView, p: int, i: Instruction, q: int, b: usize) -> LineEvent {
    let c = v.caches[p];
    match i {
        Instruction::Calc => LineEvent::Untouched,
        Instruction::Read { address } => if same_block(c, address, b) {
            if q == p {
                LineEvent::LocalRead
            } else if c.lookup(address) is Some {
                LineEvent::Untouched
            } else {
                LineEvent::RemoteReadMiss
            }
        } else if q == p && c.lookup(address) is None && c.is_hit(b, c.victim(address)) {
            LineEvent::Eviction
        } else {
            LineEvent::Untouched
        },
        Instruction::Write { address, .. } => if same_block(c, address, b) {
            if q == p {
                LineEvent::LocalWrite
            } else {
                LineEvent::RemoteInvalidate
            }
        } else if q == p && c.is_hit(b, c.victim(address)) {
            LineEvent::Eviction
        } else {
            LineEvent::Untouched
        },
    }
}

/// Every change a benign step makes to the state in which a cache holds a
/// block is one the protocol table allows for what the step is to that
/// cache: a local read (hit keeps, miss fills exclusive or shared), a local
/// write (to modified), a remote read miss (exclusive and modified become
/// owned, the rest stay), a remote write (to invalid), or the eviction of
/// the victim (to invalid); every other block stays as it was.
pub proof fn lemma_execute_transitions(v: SystemView, p: int, i: Instruction)
    requires
        v.wf(),
        coherent(v),
        0 <= p < v.caches.len(),
        v.valid_instruction(i),
        benign(v, p, i),
    ensures
        forall|q: int, b: usize|
            0 <= q < v.caches.len() && v.caches[0].valid_address(b) ==> allowed(
                line_event(v, p, i, q, b),
                state_of(v.caches[q], b),
                #[trigger] state_of(v.executed(p, i).caches[q], b),
            ),
{
    let f = v.executed(p, i);
    let c = v.caches[p];
    match i {
        Instruction::Calc => {},
        Instruction::Read { address } => {
            if c.lookup(address) is None {
                lemma_read_miss_states(v, p, address);
            } else {
                assert forall|q: int, b: usize|
                    0 <= q < v.caches.len() && v.caches[0].valid_address(b) implies allowed(
                    line_event(v, p, i, q, b),
                    state_of(v.caches[q], b),
                    #[trigger] state_of(f.caches[q], b),
                ) by {
                    if q == p && same_block(c, address, b) {
                        lemma_same_geometry(v, p, address);
                        lemma_same_geometry(v, p, b);
                        lemma_state_of_copy(c, address);
                        lemma_same_block_state(c, address, b);
                    }
                }
            }
        },
        Instruction::Write { address, data } => {
            lemma_write_states(v, p, address, data);
        },
    }
}

} // verus!
