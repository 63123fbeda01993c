//! Properties of a whole run of the simulation.

use crate::address::valid_split;
use crate::cache::{filled, has_hit, holds, lemma_set_after, lemma_step_well_formed, outcome_in, set_after, tags_unique, CacheModel, Line};
use vstd::prelude::*;

verus! {

/// Every access processed is counted exactly once, as a hit or as a miss,
/// and there are never more evictions than misses.
pub proof fn lemma_accesses_counted(start: CacheModel, addresses: Seq<u64>)
    requires
        start.hits + start.misses == start.clock,
        start.evictions <= start.misses,
    ensures
        start.run(addresses).hits + start.run(addresses).misses == start.clock + addresses.len(),
        start.run(addresses).clock == start.clock + addresses.len(),
        start.run(addresses).evictions <= start.run(addresses).misses,
    decreases addresses.len(),
{
    if addresses.len() > 0 {
        lemma_accesses_counted(start, addresses.drop_last());
    }
}

/// From a cold cache, the hits and misses of a run add up to the number of
/// accesses, and the evictions are at most the misses.
pub proof fn lemma_cold_run_counts(set_bits: nat, num_lines: nat, block_bits: nat, addresses: Seq<u64>)
    ensures
        CacheModel::cold(set_bits, num_lines, block_bits).run(addresses).hits + CacheModel::cold(
            set_bits,
            num_lines,
            block_bits,
        ).run(addresses).misses == addresses.len(),
        CacheModel::cold(set_bits, num_lines, block_bits).run(addresses).evictions
            <= CacheModel::cold(set_bits, num_lines, block_bits).run(addresses).misses,
{
    lemma_accesses_counted(CacheModel::cold(set_bits, num_lines, block_bits), addresses);
}

/// Replaying the same accesses against the same cache state gives the same
/// state, hence the same counts, every time; the outcome of each access is
/// fixed by the geometry and the accesses before it.
pub proof fn lemma_replay_deterministic(a: CacheModel, b: CacheModel, addresses: Seq<u64>, next: u64)
    requires
        a == b,
    ensures
        a.run(addresses) == b.run(addresses),
        a.run(addresses).hits == b.run(addresses).hits,
        a.run(addresses).misses == b.run(addresses).misses,
        a.run(addresses).evictions == b.run(addresses).evictions,
        a.run(addresses).outcome(next) == b.run(addresses).outcome(next),
{
}

/// `tag` was accessed in set `s` by one of `addresses`, under the geometry
/// of `m`.
pub open spec fn seen_in(m: CacheModel, addresses: Seq<u64>, s: int, tag: u64) -> bool {
    exists|k: int| 0 <= k < addresses.len() && m.set_index(#[trigger] addresses[k]) == s && m.tag(addresses[k]) == tag
}

/// The tags of `w`, `num_lines + 1` of them and all distinct, were each
/// accessed in set `s`.
pub open spec fn overfills(m: CacheModel, addresses: Seq<u64>, s: int, w: Seq<u64>) -> bool {
    &&& w.len() == m.num_lines + 1
    &&& w.no_duplicates()
    &&& forall|x: int| 0 <= x < w.len() ==> seen_in(m, addresses, s, #[trigger] w[x])
}

/// Some set has received more distinct tags than it has lines.
pub open spec fn some_set_overfilled(m: CacheModel, addresses: Seq<u64>) -> bool {
    exists|s: int, w: Seq<u64>| #[trigger] overfills(m, addresses, s, w)
}

proof fn lemma_seen_grows(m: CacheModel, addresses: Seq<u64>, s: int, tag: u64)
    requires
        addresses.len() > 0,
        seen_in(m, addresses.drop_last(), s, tag),
    ensures
        seen_in(m, addresses, s, tag),
{
    let prev = addresses.drop_last();
    let k = choose|k: int| 0 <= k < prev.len() && m.set_index(#[trigger] prev[k]) == s && m.tag(prev[k]) == tag;
    assert(addresses[k] == prev[k]);
}

proof fn lemma_run_invariant(start: CacheModel, addresses: Seq<u64>)
    requires
        start.well_formed(),
        forall|s: int, i: int|
            0 <= s < start.sets.len() && 0 <= i < start.sets[s].len() ==> !(#[trigger] start.sets[s][i]).valid,
        start.evictions == 0,
    ensures
        start.run(addresses).well_formed(),
        start.run(addresses).set_bits == start.set_bits,
        start.run(addresses).block_bits == start.block_bits,
        start.run(addresses).num_lines == start.num_lines,
        forall|s: int, i: int|
            0 <= s < start.run(addresses).sets.len() && 0 <= i < start.run(addresses).sets[s].len()
                && (#[trigger] start.run(addresses).sets[s][i]).valid ==> seen_in(
                start,
                addresses,
                s,
                start.run(addresses).sets[s][i].tag,
            ),
        start.run(addresses).evictions > 0 ==> some_set_overfilled(start, addresses),
    decreases addresses.len(),
{
    if addresses.len() > 0 {
        let prev = addresses.drop_last();
        let a = addresses.last();
        lemma_run_invariant(start, prev);
        let m = start.run(prev);
        let n = start.run(addresses);
        assert(n == m.step(a));
        lemma_step_well_formed(m, a);
        let s = m.set_index(a);
        let t = m.tag(a);
        let set = m.sets[s];
        assert(set.len() == m.num_lines);
        lemma_set_after(set, t, m.clock);
        let i = choose|i: int|
            0 <= i < set.len() && set_after(set, t, m.clock) == set.update(
                i,
                if has_hit(set, t) {
                    Line { last_access: m.clock as u64, ..set[i] }
                } else {
                    filled(t, m.clock)
                },
            ) && (has_hit(set, t) ==> holds(set[i], t));
        assert(addresses[addresses.len() - 1] == a);
        assert(seen_in(start, addresses, s, t));
        assert forall|q: int, j: int|
            0 <= q < n.sets.len() && 0 <= j < n.sets[q].len() && (#[trigger] n.sets[q][j]).valid implies seen_in(
                start,
                addresses,
                q,
                n.sets[q][j].tag,
            ) by {
            if q != s || j != i {
                assert(n.sets[q][j] == m.sets[q][j]);
                lemma_seen_grows(start, addresses, q, n.sets[q][j].tag);
            } else if has_hit(set, t) {
                lemma_seen_grows(start, addresses, q, set[i].tag);
            }
        }
        if n.evictions > 0 {
            if m.evictions > 0 {
                let (q, w) = choose|q: int, w: Seq<u64>| #[trigger] overfills(start, prev, q, w);
                assert forall|x: int| 0 <= x < w.len() implies seen_in(start, addresses, q, #[trigger] w[x]) by {
                    lemma_seen_grows(start, addresses, q, w[x]);
                }
                assert(overfills(start, addresses, q, w));
            } else {
                assert(outcome_in(set, t) is Evicted);
                assert(tags_unique(set));
                let w = Seq::new(set.len(), |x: int| set[x].tag).push(t);
                assert forall|x: int, y: int| 0 <= x < w.len() && 0 <= y < w.len() && x != y implies w[x] != w[y] by {
                    if x < set.len() && y < set.len() {
                        assert(set[x].valid && set[y].valid);
                    } else if x < set.len() {
                        assert(set[x].valid);
                        assert(!holds(set[x], t));
                    } else {
                        assert(set[y].valid);
                        assert(!holds(set[y], t));
                    }
                }
                assert forall|x: int| 0 <= x < w.len() implies seen_in(start, addresses, s, #[trigger] w[x]) by {
                    if x < set.len() {
                        assert(set[x].valid);
                        assert(m.sets[s][x] == set[x]);
                        lemma_seen_grows(start, addresses, s, set[x].tag);
                    }
                }
                assert(overfills(start, addresses, s, w));
            }
        }
    }
}

/// From a cold cache there is no eviction until some set has received more
/// distinct tags than it has lines; in particular, while every set has
/// received at most `num_lines` distinct tags the eviction count stays zero.
pub proof fn lemma_no_eviction_before_overfill(set_bits: nat, num_lines: nat, block_bits: nat, addresses: Seq<u64>)
    requires
        valid_split(set_bits, block_bits),
        num_lines >= 1,
    ensures
        !some_set_overfilled(CacheModel::cold(set_bits, num_lines, block_bits), addresses) ==> CacheModel::cold(
            set_bits,
            num_lines,
            block_bits,
        ).run(addresses).evictions == 0,
{
    let c = CacheModel::cold(set_bits, num_lines, block_bits);
    assert forall|s: int| 0 <= s < c.sets.len() implies tags_unique(#[trigger] c.sets[s]) by {}
    lemma_run_invariant(c, addresses);
}

} // verus!
