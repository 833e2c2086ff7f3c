//! Private set-associative cache of MOESI-tagged lines.

use vstd::prelude::*;
use vstd::arithmetic::power2::{pow2, lemma_pow2_unfold, lemma2_to64};

use crate::{Data, Event, WORD_BYTES};

verus! {

/// MOESI state of a cache line.
#[derive(Clone, Copy, Debug, PartialEq, Eq, Structural)]
pub enum CacheState {
    Invalid,
    Shared,
    Exclusive,
    Modified,
    Owned,
}

/// Replacement priority: lower is evicted first.
pub open spec fn priority(s: CacheState) -> int {
    match s {
        CacheState::Invalid => 0,
        CacheState::Shared => 1,
        CacheState::Exclusive => 2,
        CacheState::Modified => 3,
        CacheState::Owned => 4,
    }
}

impl CacheState {
    /// Replacement priority of the state.
    pub fn priority(&self) -> (r: u8)
        ensures
            r as int == priority(*self),
    {
        match self {
            CacheState::Invalid => 0,
            CacheState::Shared => 1,
            CacheState::Exclusive => 2,
            CacheState::Modified => 3,
            CacheState::Owned => 4,
        }
    }

    /// One-letter name of the state.
    pub fn to_letter(&self) -> (r: &'static str)
        ensures
            r@ == letter_of(*self),
    {
        proof {
            reveal_strlit("M");
            reveal_strlit("O");
            reveal_strlit("E");
            reveal_strlit("S");
            reveal_strlit("I");
        }
        match self {
            CacheState::Modified => "M",
            CacheState::Owned => "O",
            CacheState::Exclusive => "E",
            CacheState::Shared => "S",
            CacheState::Invalid => "I",
        }
    }
}

/// One-letter name of a state.
pub open spec fn letter_of(s: CacheState) -> Seq<char> {
    match s {
        CacheState::Modified => seq!['M'],
        CacheState::Owned => seq!['O'],
        CacheState::Exclusive => seq!['E'],
        CacheState::Shared => seq!['S'],
        CacheState::Invalid => seq!['I'],
    }
}

/// A line of a private cache: state, tag and a single data word.
#[derive(Clone, Copy, Debug, PartialEq, Eq, Structural)]
pub struct CacheLine {
    pub state: CacheState,
    pub tag: usize,
    pub data: Data,
}

impl CacheLine {
    /// An invalid line with zero tag and data.
    pub fn new_cold() -> (r: CacheLine)
        ensures
            r == cold_line(),
    {
        CacheLine { state: CacheState::Invalid, tag: 0, data: 0 }
    }
}

/// The line every slot holds at start-up.
pub open spec fn cold_line() -> CacheLine {
    CacheLine { state: CacheState::Invalid, tag: 0, data: 0 }
}

/// Largest number of sets a cache may have, so that the offset and index
/// fields of an address fit in a 32-bit word.
pub const MAX_SETS: usize = 0x4000_0000;

/// Number of binary digits of `x`; `bit_len(n - 1)` is `ceil(log2(n))`.
pub open spec fn bit_len(x: nat) -> nat
    decreases x,
{
    if x == 0 {
        0
    } else {
        1 + bit_len(x / 2)
    }
}

/// The low `k` bits set.
pub open spec fn low_mask(k: usize) -> usize {
    ((1usize << k) - 1) as usize
}

/// Abstract state of a cache: its geometry, its lines slot by slot (set `i`
/// occupies slots `i * associativity .. (i + 1) * associativity`), and the
/// events it has emitted and not yet handed out.
pub struct CacheView {
    pub id: usize,
    pub sets: usize,
    pub associativity: usize,
    pub offset_bits: usize,
    pub index_bits: usize,
    pub lines: Seq<CacheLine>,
    pub events: Seq<Event>,
}

impl CacheView {
    pub open spec fn wf(self) -> bool {
        &&& 1 <= self.sets <= MAX_SETS
        &&& 1 <= self.associativity
        &&& self.sets * self.associativity <= usize::MAX
        &&& self.offset_bits == bit_len((WORD_BYTES - 1) as nat)
        &&& self.index_bits == bit_len((self.sets - 1) as nat)
        &&& self.offset_bits + self.index_bits < 32
        &&& self.lines.len() == self.sets * self.associativity
    }

    /// Tag field of an address.
    pub open spec fn tag(self, a: usize) -> usize {
        a >> ((self.offset_bits + self.index_bits) as usize)
    }

    /// Index field of an address: the set it maps to.
    pub open spec fn index(self, a: usize) -> usize {
        (a >> self.offset_bits) & low_mask(self.index_bits)
    }

    /// Offset field of an address: the byte within the word.
    pub open spec fn offset(self, a: usize) -> usize {
        a & low_mask(self.offset_bits)
    }

    /// Block address: the address without its offset field.
    pub open spec fn block(self, a: usize) -> usize {
        a >> self.offset_bits
    }

    /// Address of the first byte of the block with the given tag and index.
    pub open spec fn line_address(self, tag: usize, index: usize) -> usize {
        (tag << ((self.offset_bits + self.index_bits) as usize)) | (index << self.offset_bits)
    }

    /// The address maps to an existing set.
    pub open spec fn valid_address(self, a: usize) -> bool {
        self.index(a) < self.sets
    }

    pub open spec fn set_start(self, a: usize) -> int {
        self.index(a) * self.associativity
    }

    pub open spec fn in_set(self, a: usize, i: int) -> bool {
        self.set_start(a) <= i < self.set_start(a) + self.associativity
    }

    /// Slot `i` holds a valid copy of the block of `a`.
    pub open spec fn is_hit(self, a: usize, i: int) -> bool {
        &&& self.in_set(a, i)
        &&& self.lines[i].tag == self.tag(a)
        &&& self.lines[i].state != CacheState::Invalid
    }

    pub open spec fn is_first_hit(self, a: usize, i: int) -> bool {
        &&& self.is_hit(a, i)
        &&& forall|j: int| self.set_start(a) <= j < i ==> !self.is_hit(a, j)
    }

    /// The first slot of the set that holds a valid copy of the block of `a`.
    pub open spec fn hit_slot(self, a: usize) -> Option<int> {
        if exists|i: int| self.is_first_hit(a, i) {
            Some(choose|i: int| self.is_first_hit(a, i))
        } else {
            None
        }
    }

    /// What a lookup of `a` finds.
    pub open spec fn lookup(self, a: usize) -> Option<CacheLine> {
        match self.hit_slot(a) {
            Some(i) => Some(self.lines[i]),
            None => None,
        }
    }

    /// Slot `i` is the replacement victim for `a`: the first slot of the set
    /// with the least priority.
    pub open spec fn is_victim(self, a: usize, i: int) -> bool {
        &&& self.in_set(a, i)
        &&& forall|j: int|
            self.in_set(a, j) ==> priority(self.lines[i].state) <= priority(
                #[trigger] self.lines[j].state,
            )
        &&& forall|j: int|
            self.set_start(a) <= j < i ==> priority(#[trigger] self.lines[j].state) > priority(
                self.lines[i].state,
            )
    }

    pub open spec fn victim(self, a: usize) -> int {
        choose|i: int| self.is_victim(a, i)
    }

    pub open spec fn write_event(self, i: int, line: CacheLine) -> Event {
        Event::CacheWrite { cache_i: self.id, block_i: i as usize, line }
    }

    /// The cache after writing `line` into slot `i`.
    pub open spec fn written(self, i: int, line: CacheLine) -> CacheView {
        CacheView {
            lines: self.lines.update(i, line),
            events: self.events.push(self.write_event(i, line)),
            ..self
        }
    }

    /// The cache after storing `(state, tag(a), data)` over the victim for `a`.
    pub open spec fn stored(self, a: usize, state: CacheState, data: Data) -> CacheView {
        self.written(self.victim(a), CacheLine { state, tag: self.tag(a), data })
    }

    /// The cache after moving the line that a lookup of `a` finds to `state`.
    pub open spec fn state_changed(self, a: usize, state: CacheState) -> CacheView {
        match self.hit_slot(a) {
            Some(i) => self.written(i, CacheLine { state, ..self.lines[i] }),
            None => self,
        }
    }

    /// The line in slot `i` after invalidating `a`.
    pub open spec fn invalidated_line(self, a: usize, i: int) -> CacheLine {
        if self.in_set(a, i) && self.lines[i].tag == self.tag(a) {
            CacheLine { state: CacheState::Invalid, ..self.lines[i] }
        } else {
            self.lines[i]
        }
    }

    /// Events of invalidating `a` in the first `k` slots of its set.
    pub open spec fn invalidation_events(self, a: usize, k: nat) -> Seq<Event>
        decreases k,
    {
        if k == 0 {
            seq![]
        } else {
            let i = self.set_start(a) + k - 1;
            let prev = self.invalidation_events(a, (k - 1) as nat);
            if self.lines[i].tag == self.tag(a) {
                prev.push(self.write_event(i, self.invalidated_line(a, i)))
            } else {
                prev
            }
        }
    }

    /// The cache after invalidating every line of the set of `a` whose tag
    /// matches.
    pub open spec fn invalidated(self, a: usize) -> CacheView {
        CacheView {
            lines: Seq::new(self.lines.len(), |i: int| self.invalidated_line(a, i)),
            events: self.events + self.invalidation_events(a, self.associativity as nat),
            ..self
        }
    }
}

/// At most one slot is the first valid copy of a block.
pub proof fn lemma_first_hit_unique(c: CacheView, a: usize, i: int, j: int)
    requires
        c.is_first_hit(a, i),
        c.is_first_hit(a, j),
    ensures
        i == j,
{
}

/// At most one slot is the victim.
pub proof fn lemma_victim_unique(c: CacheView, a: usize, i: int, j: int)
    requires
        c.is_victim(a, i),
        c.is_victim(a, j),
    ensures
        i == j,
{
    if i < j {
        assert(priority(c.lines[i].state) > priority(c.lines[j].state));
    } else if j < i {
        assert(priority(c.lines[j].state) > priority(c.lines[i].state));
    }
}

proof fn lemma_bit_len_le(x: nat)
    ensures
        bit_len(x) <= x,
    decreases x,
{
    if x > 0 {
        lemma_bit_len_le(x / 2);
    }
}

proof fn lemma_bit_len_below_pow2(x: nat, k: nat)
    requires
        x < pow2(k),
    ensures
        bit_len(x) <= k,
    decreases k,
{
    if x > 0 {
        if k == 0 {
            lemma2_to64();
        } else {
            lemma_pow2_unfold(k);
            lemma_bit_len_below_pow2(x / 2, (k - 1) as nat);
        }
    }
}

/// Number of bits needed to tell `n` things apart: `ceil(log2(n))`.
pub fn index_width(n: usize) -> (r: usize)
    requires
        n >= 1,
    ensures
        r == bit_len((n - 1) as nat),
{
    let mut bits: usize = 0;
    let mut x: usize = n - 1;
    proof {
        lemma_bit_len_le((n - 1) as nat);
    }
    while x != 0
        invariant
            bits + bit_len(x as nat) == bit_len((n - 1) as nat),
            bit_len((n - 1) as nat) <= n - 1,
        decreases x,
    {
        assert(x >> 1 == x / 2) by (bit_vector);
        x = x >> 1;
        bits = bits + 1;
    }
    bits
}

proof fn lemma_mask_forms(s: usize)
    by (bit_vector)
    requires
        s < 32,
    ensures
        !(((!0usize) >> s) << s) == ((1usize << s) - 1) as usize,
{
}

proof fn lemma_index_field(a: usize, ob: usize, ib: usize)
    by (bit_vector)
    requires
        ob + ib < 32,
    ensures
        (a & (((1usize << ib) - 1) as usize) << ob) >> ob == (a >> ob) & (((1usize << ib) - 1) as usize),
{
}

proof fn lemma_tag_field(a: usize, ob: usize, ib: usize)
    by (bit_vector)
    requires
        ob + ib < 32,
    ensures
        (a & !(((((1usize << ib) - 1) as usize) << ob) | (((1usize << ob) - 1) as usize))) >> ((ob + ib) as usize)
            == a >> ((ob + ib) as usize),
{
}

proof fn lemma_fields_compose(a: usize, ob: usize, ib: usize)
    by (bit_vector)
    requires
        ob + ib < 32,
    ensures
        ((a >> ((ob + ib) as usize)) << ((ob + ib) as usize)) | ((((a >> ob) & (((1usize << ib) - 1) as usize))) << ob)
            | (a & (((1usize << ob) - 1) as usize)) == a,
{
}

proof fn lemma_clear_offset(a: usize, ob: usize, ib: usize)
    by (bit_vector)
    requires
        ob + ib < 32,
    ensures
        ((a >> ((ob + ib) as usize)) << ((ob + ib) as usize)) | ((((a >> ob) & (((1usize << ib)
            - 1) as usize))) << ob) == a & !(((1usize << ob) - 1) as usize),
{
}

proof fn lemma_block_of_cleared(a: usize, ob: usize)
    by (bit_vector)
    requires
        ob < 32,
    ensures
        (a & !(((1usize << ob) - 1) as usize)) >> ob == a >> ob,
{
}

proof fn lemma_block_of_fields(a: usize, ob: usize, ib: usize)
    requires
        ob + ib < 32,
    ensures
        ((((a >> ((ob + ib) as usize)) << ((ob + ib) as usize)) | ((((a >> ob) & (((1usize << ib)
            - 1) as usize))) << ob)) >> ob) == a >> ob,
{
    lemma_clear_offset(a, ob, ib);
    lemma_block_of_cleared(a, ob);
}

/// The first address of the block of `a` lies in the same block.
pub proof fn lemma_line_address_block(c: CacheView, a: usize)
    requires
        c.wf(),
    ensures
        c.block(c.line_address(c.tag(a), c.index(a))) == c.block(a),
{
    lemma_block_of_fields(a, c.offset_bits, c.index_bits);
}

/// A slot of the set of `a` lies in set `index(a)`.
pub proof fn lemma_slot_set(c: CacheView, a: usize, k: int)
    requires
        c.wf(),
        c.in_set(a, k),
    ensures
        k / (c.associativity as int) == c.index(a) as int,
{
    vstd::arithmetic::div_mod::lemma_fundamental_div_mod_converse_div(
        k,
        c.associativity as int,
        c.index(a) as int,
        k - c.index(a) * c.associativity,
    );
}

/// The tag, index and offset fields of an address put back together give the
/// address.
pub proof fn lemma_address_round_trip(c: CacheView, a: usize)
    requires
        c.wf(),
    ensures
        c.line_address(c.tag(a), c.index(a)) | c.offset(a) == a,
{
    lemma_fields_compose(a, c.offset_bits, c.index_bits);
}

/// A private cache: `sets * associativity` lines, set-associative, with the
/// masks that split an address into tag, index and offset.
pub struct Cache {
    processor_id: usize,
    associativity: usize,
    sets: usize,
    offset_bits: usize,
    offset_mask: usize,
    index_bits: usize,
    index_mask: usize,
    storage: Vec<CacheLine>,
    events: Vec<Event>,
}

impl View for Cache {
    type V = CacheView;

    closed spec fn view(&self) -> CacheView {
        CacheView {
            id: self.processor_id,
            sets: self.sets,
            associativity: self.associativity,
            offset_bits: self.offset_bits,
            index_bits: self.index_bits,
            lines: self.storage@,
            events: self.events@,
        }
    }
}

impl Cache {
    /// The masks agree with the field widths.
    pub closed spec fn inv(&self) -> bool {
        &&& self.offset_mask == low_mask(self.offset_bits)
        &&& self.index_mask == low_mask(self.index_bits) << self.offset_bits
    }

    pub open spec fn wf(&self) -> bool {
        self.inv() && self@.wf()
    }

    /// A cache of `sets` sets of `associativity` lines each, all invalid.
    pub fn new_cold(processor_id: usize, associativity: usize, sets: usize) -> (r: Cache)
        requires
            1 <= sets <= MAX_SETS,
            1 <= associativity,
            sets * associativity <= usize::MAX,
        ensures
            r.wf(),
            r@.id == processor_id,
            r@.sets == sets,
            r@.associativity == associativity,
            r@.lines == Seq::new((sets * associativity) as nat, |i: int| cold_line()),
            r@.events == Seq::<Event>::empty(),
    {
        let index_bits = index_width(sets);
        let offset_bits = index_width(WORD_BYTES);
        proof {
            lemma2_to64();
            lemma_bit_len_below_pow2((sets - 1) as nat, 30);
            reveal_with_fuel(bit_len, 3);
            lemma_mask_forms(offset_bits);
            lemma_mask_forms(index_bits);
        }
        let offset_mask = !(((!0usize) >> offset_bits) << offset_bits);
        let index_mask = (!(((!0usize) >> index_bits) << index_bits)) << offset_bits;
        let n = sets * associativity;
        let mut storage: Vec<CacheLine> = Vec::with_capacity(n);
        let mut k: usize = 0;
        while k < n
            invariant
                k <= n,
                storage@ == Seq::new(k as nat, |i: int| cold_line()),
            decreases n - k,
        {
            storage.push(CacheLine::new_cold());
            k = k + 1;
            assert(storage@ =~= Seq::new(k as nat, |i: int| cold_line()));
        }
        Cache {
            processor_id,
            offset_bits,
            offset_mask,
            index_bits,
            index_mask,
            associativity,
            sets,
            storage,
            events: Vec::new(),
        }
    }

    pub fn processor_id(&self) -> (r: usize)
        ensures
            r == self@.id,
    {
        self.processor_id
    }

    pub fn associativity(&self) -> (r: usize)
        ensures
            r == self@.associativity,
    {
        self.associativity
    }

    pub fn sets(&self) -> (r: usize)
        ensures
            r == self@.sets,
    {
        self.sets
    }

    /// Number of lines in the cache.
    pub fn blocks(&self) -> (r: usize)
        requires
            self.wf(),
        ensures
            r == self@.sets * self@.associativity,
    {
        self.sets * self.associativity
    }

    /// The line in slot `index`, if there is one.
    pub fn get_storage(&self, index: usize) -> (r: Option<CacheLine>)
        ensures
            r == (if index < self@.lines.len() {
                Some(self@.lines[index as int])
            } else {
                None
            }),
    {
        if index < self.storage.len() {
            Some(self.storage[index])
        } else {
            None
        }
    }

    /// Tag field of `address`.
    pub fn get_tag(&self, address: usize) -> (r: usize)
        requires
            self.wf(),
        ensures
            r == self@.tag(address),
    {
        proof {
            lemma_tag_field(address, self.offset_bits, self.index_bits);
        }
        (address & !(self.index_mask | self.offset_mask)) >> (self.offset_bits + self.index_bits)
    }

    /// Index field of `address`: the set it maps to.
    pub fn get_index(&self, address: usize) -> (r: usize)
        requires
            self.wf(),
        ensures
            r == self@.index(address),
    {
        proof {
            lemma_index_field(address, self.offset_bits, self.index_bits);
        }
        (address & self.index_mask) >> self.offset_bits
    }

    /// Offset field of `address`.
    pub fn get_offset(&self, address: usize) -> (r: usize)
        requires
            self.wf(),
        ensures
            r == self@.offset(address),
    {
        address & self.offset_mask
    }

    /// Block address of `address`.
    pub fn get_address_index(&self, address: usize) -> (r: usize)
        requires
            self.wf(),
        ensures
            r == self@.block(address),
    {
        address >> self.offset_bits
    }

    /// First address of the block with the given tag and index.
    pub fn get_line_address(&self, tag: usize, index: usize) -> (r: usize)
        requires
            self.wf(),
        ensures
            r == self@.line_address(tag, index),
    {
        (tag << (self.offset_bits + self.index_bits)) | (index << self.offset_bits)
    }

    /// Slots of set `index`.
    pub fn get_set_range(&self, index: usize) -> (r: core::ops::Range<usize>)
        requires
            self.wf(),
            index < self@.sets,
        ensures
            r.start == index * self@.associativity,
            r.end == (index + 1) * self@.associativity,
    {
        proof {
            lemma_set_bounds(index as int, self.sets as int, self.associativity as int);
        }
        index * self.associativity..(index + 1) * self.associativity
    }

    /// A copy of the lines of set `index`, if the set exists.
    pub fn get_set(&self, index: usize) -> (r: Option<Vec<CacheLine>>)
        requires
            self.wf(),
        ensures
            match r {
                Some(v) => index < self@.sets && v@ == self@.lines.subrange(
                    index * self@.associativity,
                    (index + 1) * self@.associativity,
                ),
                None => index >= self@.sets,
            },
    {
        if index >= self.sets {
            return None;
        }
        let range = self.get_set_range(index);
        proof {
            lemma_set_bounds(index as int, self.sets as int, self.associativity as int);
        }
        let start = range.start;
        let end = range.end;
        let mut out: Vec<CacheLine> = Vec::new();
        let mut i: usize = start;
        while i < end
            invariant
                self.wf(),
                start <= i <= end,
                end <= self@.lines.len(),
                out@ == self@.lines.subrange(start as int, i as int),
            decreases end - i,
        {
            out.push(self.storage[i]);
            i = i + 1;
            assert(out@ =~= self@.lines.subrange(start as int, i as int));
        }
        Some(out)
    }
}

/// The first valid copy found is the one a lookup returns.
pub proof fn lemma_hit_slot_is(c: CacheView, a: usize, i: int)
    requires
        c.is_first_hit(a, i),
    ensures
        c.hit_slot(a) == Some(i),
{
    let k = choose|k: int| c.is_first_hit(a, k);
    lemma_first_hit_unique(c, a, i, k);
}

/// Without a valid copy in the set a lookup finds nothing.
pub proof fn lemma_hit_slot_none(c: CacheView, a: usize)
    requires
        forall|j: int| c.in_set(a, j) ==> !c.is_hit(a, j),
    ensures
        c.hit_slot(a) == None::<int>,
{
}

/// The victim found is the one a store replaces.
pub proof fn lemma_victim_is(c: CacheView, a: usize, i: int)
    requires
        c.is_victim(a, i),
    ensures
        c.victim(a) == i,
{
    let k = choose|k: int| c.is_victim(a, k);
    lemma_victim_unique(c, a, i, k);
}

/// Storing a valid state for an address and then looking the address up
/// gives back the stored state and word, unless a slot ahead of the victim
/// already holds a different valid copy of the block.
pub proof fn lemma_store_then_lookup(c: CacheView, a: usize, state: CacheState, data: Data)
    requires
        c.wf(),
        c.valid_address(a),
        state != CacheState::Invalid,
        forall|j: int|
            c.set_start(a) <= j < c.victim(a) && #[trigger] c.is_hit(a, j) ==> 0 <= j < c.lines.len()
                && c.lines[j].state == state && c.lines[j].data == data,
    ensures
        c.stored(a, state, data).lookup(a) == Some(CacheLine { state, tag: c.tag(a), data }),
{
    lemma_victim_exists(c, a);
    let v = c.victim(a);
    let line = CacheLine { state, tag: c.tag(a), data };
    let n = c.stored(a, state, data);
    lemma_set_bounds(c.index(a) as int, c.sets as int, c.associativity as int);
    assert(n.lines[v] == line);
    assert(n.is_hit(a, v));
    if exists|j: int| c.set_start(a) <= j < v && c.is_hit(a, j) {
        let j0 = choose|j: int| c.set_start(a) <= j < v && c.is_hit(a, j);
        // the first valid copy ahead of the victim
        let f = first_before(c, a, j0);
        assert forall|j: int| n.set_start(a) <= j < f implies !n.is_hit(a, j) by {
            assert(n.lines[j] == c.lines[j]);
            assert(!c.is_hit(a, j));
        }
        assert(n.lines[f] == c.lines[f]);
        assert(n.is_first_hit(a, f));
        lemma_hit_slot_is(n, a, f);
    } else {
        assert forall|j: int| n.set_start(a) <= j < v implies !n.is_hit(a, j) by {
            assert(n.lines[j] == c.lines[j]);
            assert(!(c.set_start(a) <= j < v && c.is_hit(a, j)));
        }
        assert(n.is_first_hit(a, v));
        lemma_hit_slot_is(n, a, v);
    }
}

proof fn least_in_prefix(c: CacheView, a: usize, k: int) -> (best: int)
    requires
        1 <= k <= c.associativity,
    ensures
        c.set_start(a) <= best < c.set_start(a) + k,
        forall|j: int|
            c.set_start(a) <= j < c.set_start(a) + k ==> priority(c.lines[best].state) <= priority(
                #[trigger] c.lines[j].state,
            ),
        forall|j: int|
            c.set_start(a) <= j < best ==> priority(#[trigger] c.lines[j].state) > priority(
                c.lines[best].state,
            ),
    decreases k,
{
    if k == 1 {
        c.set_start(a)
    } else {
        let b = least_in_prefix(c, a, k - 1);
        let i = c.set_start(a) + k - 1;
        if priority(c.lines[i].state) < priority(c.lines[b].state) {
            i
        } else {
            b
        }
    }
}

/// Every set has a victim.
pub proof fn lemma_victim_exists(c: CacheView, a: usize)
    requires
        c.wf(),
        c.valid_address(a),
    ensures
        c.is_victim(a, c.victim(a)),
{
    let b = least_in_prefix(c, a, c.associativity as int);
    assert(c.is_victim(a, b));
}

proof fn first_before(c: CacheView, a: usize, j: int) -> (f: int)
    requires
        c.set_start(a) <= j,
        c.is_hit(a, j),
    ensures
        c.set_start(a) <= f <= j,
        c.is_first_hit(a, f),
    decreases j - c.set_start(a),
{
    if exists|k: int| c.set_start(a) <= k < j && c.is_hit(a, k) {
        let k = choose|k: int| c.set_start(a) <= k < j && c.is_hit(a, k);
        first_before(c, a, k)
    } else {
        j
    }
}

impl Cache {
    /// Writes `line` into slot `block_index` and records the write.
    fn write(&mut self, block_index: usize, line: CacheLine)
        requires
            old(self).wf(),
            block_index < old(self)@.lines.len(),
        ensures
            final(self).wf(),
            final(self)@ == old(self)@.written(block_index as int, line),
    {
        self.events.push(Event::CacheWrite { cache_i: self.processor_id, block_i: block_index, line });
        self.storage[block_index] = line;
    }

    /// Slot of the first valid copy of the block of `address` in its set.
    fn find_hit(&self, address: usize) -> (r: Option<usize>)
        requires
            self.wf(),
            self@.valid_address(address),
        ensures
            match r {
                Some(i) => self@.hit_slot(address) == Some(i as int) && self@.is_first_hit(
                    address,
                    i as int,
                ) && i < self@.lines.len(),
                None => self@.hit_slot(address) == None::<int>,
            },
    {
        let index = self.get_index(address);
        let tag = self.get_tag(address);
        let range = self.get_set_range(index);
        proof {
            lemma_set_bounds(index as int, self.sets as int, self.associativity as int);
        }
        let end = range.end;
        let mut i: usize = range.start;
        while i < end
            invariant
                self.wf(),
                self@.set_start(address) <= i <= end,
                end == self@.set_start(address) + self@.associativity,
                end <= self@.lines.len(),
                tag == self@.tag(address),
                forall|j: int| self@.set_start(address) <= j < i ==> !self@.is_hit(address, j),
            decreases end - i,
        {
            if self.storage[i].tag == tag && self.storage[i].state != CacheState::Invalid {
                proof {
                    assert(self@.is_first_hit(address, i as int));
                    lemma_hit_slot_is(self@, address, i as int);
                }
                return Some(i);
            }
            i = i + 1;
        }
        proof {
            lemma_hit_slot_none(self@, address);
        }
        None
    }

    /// The valid line that holds the block of `address`, if any (the first
    /// one of its set).
    pub fn get_address(&self, address: usize) -> (r: Option<CacheLine>)
        requires
            self.wf(),
            self@.valid_address(address),
        ensures
            r == self@.lookup(address),
    {
        match self.find_hit(address) {
            Some(i) => Some(self.storage[i]),
            None => None,
        }
    }

    /// The valid line that holds the block of `address`, for the caller to
    /// change in place (no event is recorded for such a change).
    pub fn get_address_mut(&mut self, address: usize) -> (r: Option<&mut CacheLine>)
        requires
            old(self).wf(),
            old(self)@.valid_address(address),
        ensures
            final(self).wf(),
            match old(self)@.hit_slot(address) {
                Some(i) => r is Some && *r->0 == old(self)@.lines[i] && final(self)@ == (CacheView {
                    lines: old(self)@.lines.update(i, *final(r->0)),
                    ..old(self)@
                }),
                None => r is None && final(self)@ == old(self)@,
            },
    {
        match self.find_hit(address) {
            Some(i) => Some(&mut self.storage[i]),
            None => None,
        }
    }

    /// Moves the line that holds the block of `address` to `state`; does
    /// nothing where no line holds it.
    pub fn change_state_address(&mut self, address: usize, state: CacheState)
        requires
            old(self).wf(),
            old(self)@.valid_address(address),
        ensures
            final(self).wf(),
            final(self)@ == old(self)@.state_changed(address, state),
    {
        match self.find_hit(address) {
            Some(i) => {
                let mut line = self.storage[i];
                line.state = state;
                self.write(i, line);
            },
            None => {},
        }
    }

    /// Replaces the victim of the set of `address` (the first line of least
    /// priority) with `(state, tag(address), data)` and returns the line it
    /// held.
    pub fn store_line(&mut self, address: usize, state: CacheState, data: Data) -> (r: CacheLine)
        requires
            old(self).wf(),
            old(self)@.valid_address(address),
        ensures
            final(self).wf(),
            old(self)@.is_victim(address, old(self)@.victim(address)),
            final(self)@ == old(self)@.stored(address, state, data),
            r == old(self)@.lines[old(self)@.victim(address)],
            forall|j: int|
                old(self)@.in_set(address, j) ==> priority(r.state) <= priority(
                    #[trigger] old(self)@.lines[j].state,
                ),
    {
        let line = CacheLine { tag: self.get_tag(address), state, data };
        let index = self.get_index(address);
        let range = self.get_set_range(index);
        proof {
            lemma_set_bounds(index as int, self.sets as int, self.associativity as int);
        }
        let start = range.start;
        let end = range.end;
        let mut best: usize = start;
        let mut i: usize = start + 1;
        while i < end
            invariant
                self.wf(),
                start == self@.set_start(address),
                end == start + self@.associativity,
                end <= self@.lines.len(),
                start <= best < i,
                i <= end,
                forall|j: int|
                    start <= j < i ==> priority(self@.lines[best as int].state) <= priority(
                        #[trigger] self@.lines[j].state,
                    ),
                forall|j: int|
                    start <= j < best ==> priority(#[trigger] self@.lines[j].state) > priority(
                        self@.lines[best as int].state,
                    ),
            decreases end - i,
        {
            if self.storage[i].state.priority() < self.storage[best].state.priority() {
                best = i;
            }
            i = i + 1;
        }
        proof {
            assert(self@.is_victim(address, best as int));
            lemma_victim_is(self@, address, best as int);
        }
        let replaced = self.storage[best];
        self.write(best, line);
        replaced
    }

    /// Marks invalid every line of the set of `address` whose tag matches;
    /// the data words stay.
    pub fn invalidate_address(&mut self, address: usize)
        requires
            old(self).wf(),
            old(self)@.valid_address(address),
        ensures
            final(self).wf(),
            final(self)@ == old(self)@.invalidated(address),
    {
        let ghost prev = self@;
        let index = self.get_index(address);
        let tag = self.get_tag(address);
        let range = self.get_set_range(index);
        proof {
            lemma_set_bounds(index as int, self.sets as int, self.associativity as int);
        }
        let start = range.start;
        let end = range.end;
        let mut i: usize = start;
        while i < end
            invariant
                self.wf(),
                start == prev.set_start(address),
                end == start + prev.associativity,
                end <= prev.lines.len(),
                start <= i <= end,
                tag == prev.tag(address),
                self@.id == prev.id,
                self@.sets == prev.sets,
                self@.associativity == prev.associativity,
                self@.offset_bits == prev.offset_bits,
                self@.index_bits == prev.index_bits,
                self@.lines.len() == prev.lines.len(),
                forall|j: int|
                    0 <= j < prev.lines.len() ==> #[trigger] self@.lines[j] == (if j < i {
                        prev.invalidated_line(address, j)
                    } else {
                        prev.lines[j]
                    }),
                self@.events == prev.events + prev.invalidation_events(
                    address,
                    (i - start) as nat,
                ),
            decreases end - i,
        {
            if self.storage[i].tag == tag {
                let mut line = self.storage[i];
                line.state = CacheState::Invalid;
                self.write(i, line);
            }
            i = i + 1;
            proof {
                let k = (i - start) as nat;
                assert(prev.invalidation_events(address, k) == (if prev.lines[i - 1].tag
                    == prev.tag(address) {
                    prev.invalidation_events(address, (k - 1) as nat).push(
                        prev.write_event(i - 1, prev.invalidated_line(address, i - 1)),
                    )
                } else {
                    prev.invalidation_events(address, (k - 1) as nat)
                }));
                assert(self@.events =~= prev.events + prev.invalidation_events(address, k));
            }
        }
        proof {
            assert(self@.lines =~= Seq::new(
                prev.lines.len(),
                |j: int| prev.invalidated_line(address, j),
            ));
        }
    }

    /// Hands out the events recorded since the last call.
    pub fn take_events(&mut self) -> (r: Vec<Event>)
        requires
            old(self).wf(),
        ensures
            final(self).wf(),
            r@ == old(self)@.events,
            final(self)@ == (CacheView { events: Seq::empty(), ..old(self)@ }),
    {
        let mut out: Vec<Event> = Vec::new();
        core::mem::swap(&mut out, &mut self.events);
        out
    }
}

pub proof fn lemma_set_bounds(index: int, sets: int, assoc: int)
    requires
        0 <= index < sets,
        1 <= assoc,
        sets * assoc <= usize::MAX,
    ensures
        0 <= index * assoc,
        index * assoc + assoc == (index + 1) * assoc,
        (index + 1) * assoc <= sets * assoc,
{
    assert((index + 1) * assoc <= sets * assoc) by (nonlinear_arith)
        requires
            index + 1 <= sets,
            1 <= assoc,
    ;
    assert(0 <= index * assoc) by (nonlinear_arith)
        requires
            0 <= index,
            1 <= assoc,
    ;
    assert(index * assoc + assoc == (index + 1) * assoc) by (nonlinear_arith);
}

} // verus!
