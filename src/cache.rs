//! The cache engine: a grid of sets of lines, the hit / store / evict
//! decision for one access, and the running statistics.

use crate::address::{block_of, low_bits, set_of, shift_down, tag_of, valid_split, AddressPartition};
use crate::valgrind::MemoryAccess;
use vstd::arithmetic::power2::pow2;
use vstd::prelude::*;

verus! {

/// One storage slot of a set: whether it is occupied, the tag it holds and
/// the logical time of its last use.
#[derive(PartialEq, Eq, Structural, Debug, Clone, Copy)]
pub struct Line {
    pub valid: bool,
    pub tag: u64,
    pub last_access: u64,
}

/// The lines of one set; their number is fixed at construction.
#[derive(Debug)]
pub struct CacheSet {
    lines: Vec<Line>,
}

/// Counts of hits, misses and evictions so far.
#[derive(PartialEq, Eq, Structural, Debug, Clone, Copy)]
pub struct Statistics {
    pub hit: u64,
    pub miss: u64,
    pub eviction: u64,
}

/// How one access was resolved.
#[derive(PartialEq, Eq, Structural, Debug, Clone, Copy)]
pub enum Outcome {
    /// A valid line of the set held the tag.
    Hit,
    /// A miss, stored into a line that was free.
    Stored,
    /// A miss, stored over the least recently used line.
    Evicted,
}

/// Why a geometry was refused.
#[derive(PartialEq, Eq, Structural, Debug, Clone, Copy)]
pub enum ConfigError {
    /// The set-index and block-offset bits together exceed 64.
    TooManyAddressBits,
    /// A set must hold at least one line.
    NoLines,
}

/// A simulated set-associative cache with least-recently-used replacement.
#[derive(Debug)]
pub struct Cache {
    stats: Statistics,
    sets: Vec<CacheSet>,
    set_bits: u8,
    block_bits: u8,
    tag_bits: u8,
    num_lines: u8,
    clock: u64,
}

/// What a cache is: its geometry, the lines of each set, the logical clock
/// (the number of accesses processed) and the three counters.
pub struct CacheModel {
    pub set_bits: nat,
    pub block_bits: nat,
    pub num_lines: nat,
    pub sets: Seq<Seq<Line>>,
    pub clock: nat,
    pub hits: nat,
    pub misses: nat,
    pub evictions: nat,
}

/// `line` is occupied by `tag`.
pub open spec fn holds(line: Line, tag: u64) -> bool {
    line.valid && line.tag == tag
}

/// Some line of `set` is occupied by `tag`.
pub open spec fn has_hit(set: Seq<Line>, tag: u64) -> bool {
    exists|i: int| 0 <= i < set.len() && holds(#[trigger] set[i], tag)
}

/// `i` is the first line of `set` occupied by `tag`.
pub open spec fn is_first_hit(set: Seq<Line>, tag: u64, i: int) -> bool {
    &&& 0 <= i < set.len()
    &&& holds(set[i], tag)
    &&& forall|j: int| 0 <= j < i ==> !holds(#[trigger] set[j], tag)
}

/// Some line of `set` is free.
pub open spec fn has_free(set: Seq<Line>) -> bool {
    exists|i: int| 0 <= i < set.len() && !(#[trigger] set[i]).valid
}

/// `i` is the first free line of `set`.
pub open spec fn is_first_free(set: Seq<Line>, i: int) -> bool {
    &&& 0 <= i < set.len()
    &&& !set[i].valid
    &&& forall|j: int| 0 <= j < i ==> (#[trigger] set[j]).valid
}

/// `i` is the line of `set` with the oldest last access, the first one where
/// several share it.
pub open spec fn is_lru(set: Seq<Line>, i: int) -> bool {
    &&& 0 <= i < set.len()
    &&& forall|j: int| 0 <= j < set.len() ==> set[i].last_access <= (#[trigger] set[j]).last_access
    &&& forall|j: int| 0 <= j < i ==> set[i].last_access < (#[trigger] set[j]).last_access
}

/// The line occupied by `tag`, last used at `now`.
pub open spec fn filled(tag: u64, now: nat) -> Line {
    Line { valid: true, tag, last_access: now as u64 }
}

/// How an access of `tag` to `set` is resolved.
pub open spec fn outcome_in(set: Seq<Line>, tag: u64) -> Outcome {
    if has_hit(set, tag) {
        Outcome::Hit
    } else if has_free(set) {
        Outcome::Stored
    } else {
        Outcome::Evicted
    }
}

/// `set` after an access of `tag` at time `now`: a hit refreshes the line's
/// time; a miss fills the first free line, or else the least recently used.
pub open spec fn set_after(set: Seq<Line>, tag: u64, now: nat) -> Seq<Line> {
    if has_hit(set, tag) {
        let i = choose|i: int| is_first_hit(set, tag, i);
        set.update(i, Line { last_access: now as u64, ..set[i] })
    } else if has_free(set) {
        let i = choose|i: int| is_first_free(set, i);
        set.update(i, filled(tag, now))
    } else {
        let i = choose|i: int| is_lru(set, i);
        set.update(i, filled(tag, now))
    }
}

/// No two valid lines of `set` hold the same tag.
pub open spec fn tags_unique(set: Seq<Line>) -> bool {
    forall|i: int, j: int|
        0 <= i < set.len() && 0 <= j < set.len() && (#[trigger] set[i]).valid && (#[trigger] set[j]).valid
            && set[i].tag == set[j].tag ==> i == j
}

impl CacheModel {
    /// A cold cache of the given geometry: every line free, at time zero.
    pub open spec fn cold(set_bits: nat, num_lines: nat, block_bits: nat) -> CacheModel {
        CacheModel {
            set_bits,
            block_bits,
            num_lines,
            sets: Seq::new(
                pow2(set_bits),
                |s: int| Seq::new(num_lines, |i: int| Line { valid: false, tag: 0, last_access: 0 }),
            ),
            clock: 0,
            hits: 0,
            misses: 0,
            evictions: 0,
        }
    }

    /// The set that `address` maps to.
    pub open spec fn set_index(self, address: u64) -> int {
        set_of(address, self.set_bits, self.block_bits) as int
    }

    /// The tag of `address`.
    pub open spec fn tag(self, address: u64) -> u64 {
        tag_of(address, self.set_bits, self.block_bits) as u64
    }

    /// How an access of `address` is resolved.
    pub open spec fn outcome(self, address: u64) -> Outcome {
        outcome_in(self.sets[self.set_index(address)], self.tag(address))
    }

    /// The cache after one access of `tag` in set `s`.
    pub open spec fn step_in(self, tag: u64, s: int) -> CacheModel {
        let o = outcome_in(self.sets[s], tag);
        CacheModel {
            sets: self.sets.update(s, set_after(self.sets[s], tag, self.clock)),
            clock: self.clock + 1,
            hits: if o is Hit { self.hits + 1 } else { self.hits },
            misses: if o is Hit { self.misses } else { self.misses + 1 },
            evictions: if o is Evicted { self.evictions + 1 } else { self.evictions },
            ..self
        }
    }

    /// The cache after one access of `address`.
    pub open spec fn step(self, address: u64) -> CacheModel {
        self.step_in(self.tag(address), self.set_index(address))
    }

    /// The cache after the accesses of `addresses`, in order.
    pub open spec fn run(self, addresses: Seq<u64>) -> CacheModel
        decreases addresses.len(),
    {
        if addresses.len() == 0 {
            self
        } else {
            self.run(addresses.drop_last()).step(addresses.last())
        }
    }

    /// The geometry is legal, the storage has its shape, and no set holds
    /// a tag twice.
    pub open spec fn well_shaped(self) -> bool {
        &&& valid_split(self.set_bits, self.block_bits)
        &&& self.num_lines >= 1
        &&& self.sets.len() == pow2(self.set_bits)
        &&& forall|s: int| 0 <= s < self.sets.len() ==> (#[trigger] self.sets[s]).len() == self.num_lines
        &&& forall|s: int| 0 <= s < self.sets.len() ==> tags_unique(#[trigger] self.sets[s])
    }

    /// Well shaped, with every access processed counted once as a hit or a
    /// miss, and no more evictions than misses.
    pub open spec fn well_formed(self) -> bool {
        &&& self.well_shaped()
        &&& self.hits + self.misses == self.clock
        &&& self.evictions <= self.misses
    }
}

/// The addresses of a sequence of accesses.
pub open spec fn addresses_of(traces: Seq<MemoryAccess>) -> Seq<u64> {
    traces.map_values(|t: MemoryAccess| t.address)
}

impl View for Cache {
    type V = CacheModel;

    closed spec fn view(&self) -> CacheModel {
        CacheModel {
            set_bits: self.set_bits as nat,
            block_bits: self.block_bits as nat,
            num_lines: self.num_lines as nat,
            sets: self.sets@.map_values(|s: CacheSet| s.lines@),
            clock: self.clock as nat,
            hits: self.stats.hit as nat,
            misses: self.stats.miss as nat,
            evictions: self.stats.eviction as nat,
        }
    }
}

impl Cache {
    /// The cache is consistent: its model is well formed and the stored
    /// width of the tag matches the geometry.
    pub closed spec fn wf(&self) -> bool {
        &&& self@.well_formed()
        &&& self.shaped()
    }

    /// The storage is consistent with the geometry, whatever the counters
    /// hold (as between the steps of one access).
    pub closed spec fn shaped(&self) -> bool {
        &&& self@.well_shaped()
        &&& self.tag_bits as nat == 64 - self.set_bits - self.block_bits
    }
}

proof fn lemma_first_hit_chosen(set: Seq<Line>, tag: u64, i: int)
    requires
        is_first_hit(set, tag, i),
    ensures
        has_hit(set, tag),
        (choose|k: int| is_first_hit(set, tag, k)) == i,
{
    let k = choose|k: int| is_first_hit(set, tag, k);
    if k < i {
        assert(!holds(set[k], tag));
    } else if i < k {
        assert(!holds(set[i], tag));
    }
}

proof fn lemma_first_free_chosen(set: Seq<Line>, i: int)
    requires
        is_first_free(set, i),
    ensures
        has_free(set),
        (choose|k: int| is_first_free(set, k)) == i,
{
    let k = choose|k: int| is_first_free(set, k);
    if k < i {
        assert(set[k].valid);
    } else if i < k {
        assert(set[i].valid);
    }
}

proof fn lemma_lru_chosen(set: Seq<Line>, i: int)
    requires
        is_lru(set, i),
    ensures
        (choose|k: int| is_lru(set, k)) == i,
{
    let k = choose|k: int| is_lru(set, k);
    if k < i {
        assert(set[i].last_access < set[k].last_access);
    } else if i < k {
        assert(set[k].last_access < set[i].last_access);
    }
}

proof fn lemma_first_hit_below(set: Seq<Line>, tag: u64, w: int)
    requires
        0 <= w < set.len(),
        holds(set[w], tag),
    ensures
        exists|i: int| is_first_hit(set, tag, i),
    decreases w,
{
    if exists|j: int| 0 <= j < w && holds(#[trigger] set[j], tag) {
        let j = choose|j: int| 0 <= j < w && holds(#[trigger] set[j], tag);
        lemma_first_hit_below(set, tag, j);
    } else {
        assert(is_first_hit(set, tag, w));
    }
}

proof fn lemma_first_free_below(set: Seq<Line>, w: int)
    requires
        0 <= w < set.len(),
        !set[w].valid,
    ensures
        exists|i: int| is_first_free(set, i),
    decreases w,
{
    if exists|j: int| 0 <= j < w && !(#[trigger] set[j]).valid {
        let j = choose|j: int| 0 <= j < w && !(#[trigger] set[j]).valid;
        lemma_first_free_below(set, j);
    } else {
        assert(is_first_free(set, w));
    }
}

spec fn lru_in_prefix(set: Seq<Line>, n: int, k: int) -> bool {
    &&& 0 <= k < n
    &&& forall|j: int| 0 <= j < n ==> set[k].last_access <= (#[trigger] set[j]).last_access
    &&& forall|j: int| 0 <= j < k ==> set[k].last_access < (#[trigger] set[j]).last_access
}

proof fn lemma_lru_in_prefix(set: Seq<Line>, n: int)
    requires
        1 <= n <= set.len(),
    ensures
        exists|k: int| lru_in_prefix(set, n, k),
    decreases n,
{
    if n > 1 {
        let m = n - 1;
        lemma_lru_in_prefix(set, m);
        let k = choose|k: int| lru_in_prefix(set, m, k);
        if set[n - 1].last_access < set[k].last_access {
            assert(lru_in_prefix(set, n, n - 1));
        } else {
            assert(lru_in_prefix(set, n, k));
        }
    } else {
        assert(lru_in_prefix(set, 1, 0));
    }
}

/// What one access does to a set: the line it uses, and the set after it.
/// A hit keeps the line's occupant; a miss fills the line with the tag,
/// and an eviction happens only in a set whose lines are all valid and
/// none of which holds the tag.
pub proof fn lemma_set_after(set: Seq<Line>, tag: u64, now: nat)
    requires
        set.len() >= 1,
    ensures
        exists|i: int|
            0 <= i < set.len() && set_after(set, tag, now) == set.update(
                i,
                if has_hit(set, tag) {
                    Line { last_access: now as u64, ..set[i] }
                } else {
                    filled(tag, now)
                },
            ) && (has_hit(set, tag) ==> holds(set[i], tag)),
        outcome_in(set, tag) is Evicted ==> !has_hit(set, tag) && forall|j: int|
            0 <= j < set.len() ==> (#[trigger] set[j]).valid,
{
    if has_hit(set, tag) {
        let w = choose|i: int| 0 <= i < set.len() && holds(#[trigger] set[i], tag);
        lemma_first_hit_below(set, tag, w);
        let i = choose|i: int| is_first_hit(set, tag, i);
        assert(holds(set[i], tag));
    } else if has_free(set) {
        let w = choose|i: int| 0 <= i < set.len() && !(#[trigger] set[i]).valid;
        lemma_first_free_below(set, w);
        let i = choose|i: int| is_first_free(set, i);
        assert(0 <= i < set.len());
    } else {
        lemma_lru_in_prefix(set, set.len() as int);
        let len = set.len() as int;
        let k = choose|k: int| lru_in_prefix(set, len, k);
        assert(is_lru(set, k));
        let i = choose|i: int| is_lru(set, i);
        assert(0 <= i < set.len());
        assert forall|j: int| 0 <= j < set.len() implies (#[trigger] set[j]).valid by {
            if !set[j].valid {
                assert(has_free(set));
            }
        }
    }
}

/// Every access keeps a well-formed cache well formed, with its geometry.
pub proof fn lemma_step_well_formed(m: CacheModel, address: u64)
    requires
        m.well_formed(),
    ensures
        m.step(address).well_formed(),
        m.step(address).set_bits == m.set_bits,
        m.step(address).block_bits == m.block_bits,
        m.step(address).num_lines == m.num_lines,
        0 <= m.set_index(address) < m.sets.len(),
{
    let s = m.set_index(address);
    let t = m.tag(address);
    vstd::arithmetic::power2::lemma_pow2_pos(m.set_bits);
    assert(0 <= s < m.sets.len());
    let set = m.sets[s];
    assert(set.len() == m.num_lines);
    lemma_set_after(set, t, m.clock);
    let i = choose|i: int|
        0 <= i < set.len() && set_after(set, t, m.clock) == set.update(
            i,
            if has_hit(set, t) {
                Line { last_access: m.clock as u64, ..set[i] }
            } else {
                filled(t, m.clock)
            },
        ) && (has_hit(set, t) ==> holds(set[i], t));
    let new_set = set_after(set, t, m.clock);
    assert(tags_unique(set));
    assert forall|a: int, b: int|
        0 <= a < new_set.len() && 0 <= b < new_set.len() && (#[trigger] new_set[a]).valid
            && (#[trigger] new_set[b]).valid && new_set[a].tag == new_set[b].tag implies a == b by {
        if !has_hit(set, t) {
            if a == i && b != i {
                assert(holds(set[b], t));
            } else if b == i && a != i {
                assert(holds(set[a], t));
            }
        }
    }
    let n = m.step(address);
    assert forall|q: int| 0 <= q < n.sets.len() implies tags_unique(#[trigger] n.sets[q]) by {
        if q != s {
            assert(n.sets[q] == m.sets[q]);
        }
    }
    assert forall|q: int| 0 <= q < n.sets.len() implies (#[trigger] n.sets[q]).len() == n.num_lines by {
        if q != s {
            assert(n.sets[q] == m.sets[q]);
        }
    }
}

impl Cache {
    /// Constructs an empty, cold cache with `2^set_bits` sets of `num_lines`
    /// lines, each line addressing `2^block_bits` bytes.
    pub fn new(set_bits: u8, num_lines: u8, block_bits: u8) -> (r: Result<Cache, ConfigError>)
        requires
            valid_split(set_bits as nat, block_bits as nat) && num_lines >= 1 ==> (set_bits as u32)
                < usize::BITS,
        ensures
            r == Err::<Cache, _>(ConfigError::TooManyAddressBits) <==> set_bits + block_bits > 64,
            r == Err::<Cache, _>(ConfigError::NoLines) <==> set_bits + block_bits <= 64 && num_lines == 0,
            r is Ok <==> valid_split(set_bits as nat, block_bits as nat) && num_lines >= 1,
            r matches Ok(c) ==> c.wf() && c@.well_formed() && c@ == CacheModel::cold(
                set_bits as nat,
                num_lines as nat,
                block_bits as nat,
            ),
    {
        if set_bits as u32 + block_bits as u32 > 64 {
            return Err(ConfigError::TooManyAddressBits);
        }
        if num_lines == 0 {
            return Err(ConfigError::NoLines);
        }
        let ghost cold = CacheModel::cold(set_bits as nat, num_lines as nat, block_bits as nat);
        let ghost cold_line = Line { valid: false, tag: 0, last_access: 0 };
        let total = shift_up_one(set_bits);
        let mut sets: Vec<CacheSet> = Vec::with_capacity(total);
        let mut s: usize = 0;
        while s < total
            invariant
                s <= total,
                total == pow2(set_bits as nat),
                cold_line == (Line { valid: false, tag: 0, last_access: 0 }),
                sets@.len() == s,
                forall|k: int| 0 <= k < s ==> (#[trigger] sets@[k]).lines@ == Seq::new(num_lines as nat, |i: int| cold_line),
            decreases total - s,
        {
            let mut lines: Vec<Line> = Vec::with_capacity(num_lines as usize);
            let mut i: u8 = 0;
            while i < num_lines
                invariant
                    i <= num_lines,
                    cold_line == (Line { valid: false, tag: 0, last_access: 0 }),
                    lines@ == Seq::new(i as nat, |k: int| cold_line),
                decreases num_lines - i,
            {
                lines.push(Line { valid: false, tag: 0, last_access: 0 });
                i = i + 1;
                assert(lines@ =~= Seq::new(i as nat, |k: int| cold_line));
            }
            sets.push(CacheSet { lines });
            s = s + 1;
        }
        let c = Cache {
            stats: Statistics { hit: 0, miss: 0, eviction: 0 },
            sets,
            set_bits,
            block_bits,
            tag_bits: 64 - (set_bits + block_bits),
            num_lines,
            clock: 0,
        };
        assert(c@.sets =~= cold.sets);
        Ok(c)
    }

    /// Processes one access of `address` and reports how it was resolved.
    pub fn access(&mut self, address: u64) -> (r: Outcome)
        requires
            old(self).wf(),
            old(self)@.clock < u64::MAX,
        ensures
            final(self).wf(),
            final(self)@.well_formed(),
            final(self)@ == old(self)@.step(address),
            r == old(self)@.outcome(address),
    {
        let parts = self.decompose(address);
        if self.attempt_cache_hit(&parts) {
            return Outcome::Hit;
        }
        if self.attempt_cache_store(&parts) {
            return Outcome::Stored;
        }
        self.evict_cache_block(&parts);
        Outcome::Evicted
    }

    /// Processes the accesses of `traces` in order.
    pub fn operate_cache(&mut self, traces: Vec<MemoryAccess>)
        requires
            old(self).wf(),
            old(self)@.clock + traces@.len() <= u64::MAX,
        ensures
            final(self).wf(),
            final(self)@.well_formed(),
            final(self)@ == old(self)@.run(addresses_of(traces@)),
            final(self)@.hits + final(self)@.misses == old(self)@.hits + old(self)@.misses + traces@.len(),
            final(self)@.hits >= old(self)@.hits,
            final(self)@.misses >= old(self)@.misses,
            final(self)@.evictions >= old(self)@.evictions,
            final(self)@.evictions - old(self)@.evictions <= final(self)@.misses - old(self)@.misses,
    {
        let ghost start = self@;
        let ghost all = addresses_of(traces@);
        let n = traces.len();
        let mut i: usize = 0;
        while i < n
            invariant
                n == traces@.len(),
                all == addresses_of(traces@),
                i <= n,
                self.wf(),
                self@ == start.run(all.take(i as int)),
                self@.clock == start.clock + i,
                start.clock + n <= u64::MAX,
                self@.hits + self@.misses == start.hits + start.misses + i,
                self@.hits >= start.hits,
                self@.misses >= start.misses,
                self@.evictions >= start.evictions,
                self@.evictions - start.evictions <= self@.misses - start.misses,
            decreases n - i,
        {
            let address = traces[i].address;
            proof {
                assert(all.take(i + 1).drop_last() =~= all.take(i as int));
            }
            self.access(address);
            i = i + 1;
        }
        assert(all.take(n as int) =~= all);
    }

    /// The counters so far.
    pub fn statistics(&self) -> (r: Statistics)
        requires
            self.wf(),
        ensures
            r.hit == self@.hits,
            r.miss == self@.misses,
            r.eviction == self@.evictions,
    {
        self.stats
    }

    /// Looks for a valid line of the set that holds the tag, scanning every
    /// line. On a hit, marks that line as just used and counts the hit; on a
    /// miss, counts the miss and leaves the lines as they are.
    fn attempt_cache_hit(&mut self, parts: &AddressPartition) -> (r: bool)
        requires
            old(self).wf(),
            parts.set < old(self)@.sets.len(),
            old(self)@.clock < u64::MAX,
        ensures
            r == has_hit(old(self)@.sets[parts.set as int], parts.tag),
            r ==> final(self).wf() && final(self)@ == old(self)@.step_in(parts.tag, parts.set as int),
            !r ==> final(self).shaped() && final(self)@ == (CacheModel {
                misses: old(self)@.misses + 1,
                ..old(self)@
            }),
    {
        let n_sets = self.sets.len();
        assert(parts.set < n_sets);
        let s = parts.set as usize;
        let n = self.sets[s].lines.len();
        let ghost set = self@.sets[s as int];
        let mut i: usize = 0;
        while i < n
            invariant
                self == old(self),
                self.wf(),
                self@.clock < u64::MAX,
                s < self.sets@.len(),
                s as int == parts.set as int,
                set == self@.sets[s as int],
                n == set.len(),
                i <= n,
                forall|j: int| 0 <= j < i ==> !holds(#[trigger] set[j], parts.tag),
            decreases n - i,
        {
            let line = self.sets[s].lines[i];
            if line.valid && line.tag == parts.tag {
                proof {
                    lemma_first_hit_chosen(set, parts.tag, i as int);
                }
                let now = self.clock;
                self.sets[s].lines[i].last_access = now;
                self.stats.hit = self.stats.hit + 1;
                self.clock = now + 1;
                proof {
                    let old_m = old(self)@;
                    let new_set = set.update(i as int, Line { last_access: now, ..set[i as int] });
                    assert(self@.sets =~= old_m.sets.update(s as int, new_set));
                    assert(set_after(set, parts.tag, old_m.clock) == new_set);
                    assert(tags_unique(new_set));
                    assert(self@.well_formed());
                }
                return true;
            }
            i = i + 1;
        }
        self.stats.miss = self.stats.miss + 1;
        proof {
            assert(self@.sets =~= old(self)@.sets);
        }
        false
    }

    /// Stores the tag into the first free line of the set, if there is one,
    /// and advances the clock; otherwise leaves the cache as it is. The
    /// counters are left alone: the miss was counted by the hit check.
    fn attempt_cache_store(&mut self, parts: &AddressPartition) -> (r: bool)
        requires
            old(self).shaped(),
            parts.set < old(self)@.sets.len(),
            old(self)@.clock < u64::MAX,
            !has_hit(old(self)@.sets[parts.set as int], parts.tag),
        ensures
            r == has_free(old(self)@.sets[parts.set as int]),
            r ==> final(self).shaped() && final(self)@ == (CacheModel {
                sets: old(self)@.sets.update(
                    parts.set as int,
                    set_after(old(self)@.sets[parts.set as int], parts.tag, old(self)@.clock),
                ),
                clock: old(self)@.clock + 1,
                ..old(self)@
            }),
            !r ==> *final(self) == *old(self),
    {
        let n_sets = self.sets.len();
        assert(parts.set < n_sets);
        let s = parts.set as usize;
        let n = self.sets[s].lines.len();
        let ghost set = self@.sets[s as int];
        let mut i: usize = 0;
        while i < n
            invariant
                self == old(self),
                self.shaped(),
                self@.clock < u64::MAX,
                s < self.sets@.len(),
                s as int == parts.set as int,
                set == self@.sets[s as int],
                n == set.len(),
                i <= n,
                forall|j: int| 0 <= j < i ==> (#[trigger] set[j]).valid,
                !has_hit(set, parts.tag),
            decreases n - i,
        {
            if !self.sets[s].lines[i].valid {
                proof {
                    lemma_first_free_chosen(set, i as int);
                }
                let now = self.clock;
                self.sets[s].lines[i] = Line { valid: true, tag: parts.tag, last_access: now };
                self.clock = now + 1;
                proof {
                    let old_m = old(self)@;
                    let new_set = set.update(i as int, filled(parts.tag, old_m.clock));
                    assert(self@.sets =~= old_m.sets.update(s as int, new_set));
                    assert(set_after(set, parts.tag, old_m.clock) == new_set);
                    assert(tags_unique(new_set));
                    assert(self@.well_shaped());
                }
                return true;
            }
            i = i + 1;
        }
        false
    }

    /// Stores the tag over the least recently used line of a full set,
    /// advances the clock and counts the eviction. Hits and misses are left
    /// alone: the miss was counted by the hit check.
    fn evict_cache_block(&mut self, parts: &AddressPartition)
        requires
            old(self).shaped(),
            parts.set < old(self)@.sets.len(),
            old(self)@.clock < u64::MAX,
            old(self)@.evictions < old(self)@.misses,
            old(self)@.misses <= u64::MAX,
            !has_hit(old(self)@.sets[parts.set as int], parts.tag),
            !has_free(old(self)@.sets[parts.set as int]),
        ensures
            final(self).shaped(),
            final(self)@ == (CacheModel {
                sets: old(self)@.sets.update(
                    parts.set as int,
                    set_after(old(self)@.sets[parts.set as int], parts.tag, old(self)@.clock),
                ),
                clock: old(self)@.clock + 1,
                evictions: old(self)@.evictions + 1,
                ..old(self)@
            }),
    {
        let n_sets = self.sets.len();
        assert(parts.set < n_sets);
        let s = parts.set as usize;
        let n = self.sets[s].lines.len();
        let ghost set = self@.sets[s as int];
        let mut best: usize = 0;
        let mut best_time: u64 = self.sets[s].lines[0].last_access;
        let mut i: usize = 1;
        while i < n
            invariant
                self == old(self),
                self.shaped(),
                self@.clock < u64::MAX,
                s < self.sets@.len(),
                s as int == parts.set as int,
                set == self@.sets[s as int],
                n == set.len(),
                1 <= i <= n,
                !has_hit(set, parts.tag),
                !has_free(set),
                best < i,
                best_time == set[best as int].last_access,
                forall|j: int| 0 <= j < i ==> best_time <= (#[trigger] set[j]).last_access,
                forall|j: int| 0 <= j < best ==> best_time < (#[trigger] set[j]).last_access,
            decreases n - i,
        {
            let t = self.sets[s].lines[i].last_access;
            if t < best_time {
                best = i;
                best_time = t;
            }
            i = i + 1;
        }
        proof {
            lemma_lru_chosen(set, best as int);
        }
        let now = self.clock;
        self.sets[s].lines[best] = Line { valid: true, tag: parts.tag, last_access: now };
        self.stats.eviction = self.stats.eviction + 1;
        self.clock = now + 1;
        proof {
            let old_m = old(self)@;
            let new_set = set.update(best as int, filled(parts.tag, old_m.clock));
            assert(self@.sets =~= old_m.sets.update(s as int, new_set));
            assert(set_after(set, parts.tag, old_m.clock) == new_set);
            assert(tags_unique(new_set));
            assert(self@.well_shaped());
        }
    }

    /// Splits `address` under this cache's geometry.
    fn decompose(&self, address: u64) -> (r: AddressPartition)
        requires
            self.shaped(),
        ensures
            r.tag == self@.tag(address),
            r.set as int == self@.set_index(address),
            r.block as nat == block_of(address, self@.block_bits),
            r.set < self@.sets.len(),
    {
        proof {
            vstd::arithmetic::power2::lemma_pow2_pos(self.set_bits as nat);
        }
        Cache::place_block(address, self.set_bits, self.block_bits)
    }

    /// Splits `address` into its tag, set index and block offset, for
    /// `set_bits` set-index bits and `block_bits` block-offset bits.
    pub fn place_block(address: u64, set_bits: u8, block_bits: u8) -> (r: AddressPartition)
        requires
            valid_split(set_bits as nat, block_bits as nat),
        ensures
            r.tag as nat == tag_of(address, set_bits as nat, block_bits as nat),
            r.set as nat == set_of(address, set_bits as nat, block_bits as nat),
            r.block as nat == block_of(address, block_bits as nat),
    {
        let s: u32 = set_bits as u32;
        let b: u32 = block_bits as u32;
        let tag = shift_down(address, s + b);
        let rest = shift_down(address, b);
        let set = low_bits(rest, s);
        let block = low_bits(address, b);
        AddressPartition { tag, set, block }
    }
}

/// `2^bits` as a count of sets.
fn shift_up_one(bits: u8) -> (r: usize)
    requires
        (bits as u32) < usize::BITS,
    ensures
        r == pow2(bits as nat),
{
    proof {
        vstd::bits::lemma_usize_pow2_no_overflow(bits as nat);
        vstd::bits::lemma_usize_shl_is_mul(1, bits as usize);
    }
    let one: usize = 1;
    one << (bits as usize)
}

} // verus!
