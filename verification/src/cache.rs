//! The whole cache: its sets, its tallies, and what one access does to them.

use vstd::prelude::*;
use vstd::arithmetic::power2::{lemma2_to64, lemma_pow2_strictly_increases, lemma_pow2_unfold, pow2};
use crate::address::{calculate_index_and_tag, lemma_tag_bound, set_index_of, tag_of};
use crate::set::{
    access_of, accesses_of, alternating, lemma_first_hit, lemma_one_line_set_thrashes, tags_distinct,
    CacheLine, CacheSet,
};

verus! {

/// The sets of a cache and its running tallies of hits, misses and
/// evictions.
pub struct Cache {
    pub sets: Vec<CacheSet>,
    pub hits: u64,
    pub misses: u64,
    pub evictions: u64,
}

/// A cache as a value: the lines of each set, and the tallies as unbounded
/// numbers.
pub ghost struct CacheState {
    pub sets: Seq<Seq<CacheLine>>,
    pub hits: nat,
    pub misses: nat,
    pub evictions: nat,
}

/// A cache in the course of a run, together with the logical clock that the
/// run threads through every access.
pub ghost struct Replay {
    pub cache: CacheState,
    pub clock: nat,
}

impl View for Cache {
    type V = CacheState;

    open spec fn view(&self) -> CacheState {
        CacheState {
            sets: Seq::new(self.sets@.len(), |i: int| self.sets@[i]@),
            hits: self.hits as nat,
            misses: self.misses as nat,
            evictions: self.evictions as nat,
        }
    }
}

/// The run that stands at `cache` with its clock at `clock`.
pub open spec fn running(cache: CacheState, clock: nat) -> Replay {
    Replay { cache, clock }
}

/// A line that was never filled.
pub open spec fn free_line() -> CacheLine {
    CacheLine { valid: false, tag: 0, last_used: 0 }
}

impl CacheState {
    /// A cache of `2^s` sets of `e` free lines each, with every tally at
    /// zero.
    pub open spec fn empty(s: nat, e: nat) -> CacheState {
        CacheState {
            sets: Seq::new(pow2(s), |i: int| Seq::new(e, |j: int| free_line())),
            hits: 0,
            misses: 0,
            evictions: 0,
        }
    }

    /// The tallies fit in 64 bits.
    pub open spec fn tallies_fit(self) -> bool {
        self.hits <= u64::MAX && self.misses <= u64::MAX && self.evictions <= u64::MAX
    }

    /// No set holds one live tag in two lines.
    pub open spec fn tags_distinct(self) -> bool {
        forall|i: int| 0 <= i < self.sets.len() ==> tags_distinct(#[trigger] self.sets[i])
    }

    /// Every set has at least one line.
    pub open spec fn well_formed(self) -> bool {
        forall|i: int| 0 <= i < self.sets.len() ==> (#[trigger] self.sets[i]).len() > 0
    }
}

/// One access of a run: `operation` on `address`, in a cache with `s`
/// set-index bits and `b` block-offset bits.
///
/// The address picks its set and tag, and the set is accessed once. A hit
/// adds one to `hits`; a miss adds one to `misses`, and one to `evictions`
/// where it displaced a live line. The operation `M`, a load followed by a
/// store to the same address, adds one more hit, whatever the load did.
pub open spec fn process_of(state: Replay, operation: char, address: u64, s: nat, b: nat) -> Replay {
    let index = set_index_of(address, s, b) as int;
    let access = access_of(state.cache.sets[index], tag_of(address, s, b) as u64, state.clock);
    let store_hit: nat = if operation == 'M' {
        1
    } else {
        0
    };
    Replay {
        cache: CacheState {
            sets: state.cache.sets.update(index, access.lines),
            hits: state.cache.hits + (if access.hit {
                1nat
            } else {
                0nat
            }) + store_hit,
            misses: state.cache.misses + (if access.hit {
                0nat
            } else {
                1nat
            }),
            evictions: state.cache.evictions + (if access.evicted {
                1nat
            } else {
                0nat
            }),
        },
        clock: access.clock,
    }
}

/// The run after loads from `addresses`, in order.
pub open spec fn loads_of(state: Replay, addresses: Seq<u64>, s: nat, b: nat) -> Replay
    decreases addresses.len(),
{
    if addresses.len() == 0 {
        state
    } else {
        process_of(loads_of(state, addresses.drop_last(), s, b), 'L', addresses.last(), s, b)
    }
}

/// Loads that alternate between two addresses of one set are accesses to
/// that set that alternate between their tags.
proof fn lemma_loads_of_one_set(state: Replay, x: u64, y: u64, s: nat, b: nat, n: nat)
    requires
        set_index_of(x, s, b) == set_index_of(y, s, b),
        set_index_of(x, s, b) < state.cache.sets.len(),
    ensures
        ({
            let index = set_index_of(x, s, b) as int;
            let run = loads_of(state, alternating(x, y, n), s, b);
            let accesses = accesses_of(
                state.cache.sets[index],
                alternating(tag_of(x, s, b) as u64, tag_of(y, s, b) as u64, n),
                state.clock,
            );
            &&& run.cache.sets.len() == state.cache.sets.len()
            &&& run.cache.sets[index] == accesses.lines
            &&& run.clock == accesses.clock
        }),
    decreases n,
{
    if n > 0 {
        let tx = tag_of(x, s, b) as u64;
        let ty = tag_of(y, s, b) as u64;
        lemma_loads_of_one_set(state, x, y, s, b, (n - 1) as nat);
        assert(alternating(x, y, n).drop_last() =~= alternating(x, y, (n - 1) as nat));
        assert(alternating(tx, ty, n).drop_last() =~= alternating(tx, ty, (n - 1) as nat));
    }
}

/// In a cache whose sets have one line, loads that alternate between two
/// addresses of one set with different tags drive each other out: every
/// load after the first adds one miss and one eviction, and no hit.
pub proof fn lemma_direct_mapped_thrashes(state: Replay, x: u64, y: u64, s: nat, b: nat, n: nat)
    requires
        set_index_of(x, s, b) == set_index_of(y, s, b),
        set_index_of(x, s, b) < state.cache.sets.len(),
        state.cache.sets[set_index_of(x, s, b) as int].len() == 1,
        tag_of(x, s, b) != tag_of(y, s, b),
        n >= 2,
    ensures
        ({
            let before = loads_of(state, alternating(x, y, (n - 1) as nat), s, b);
            let after = loads_of(state, alternating(x, y, n), s, b);
            &&& after.cache.hits == before.cache.hits
            &&& after.cache.misses == before.cache.misses + 1
            &&& after.cache.evictions == before.cache.evictions + 1
            &&& after.clock == before.clock + 1
        }),
{
    let index = set_index_of(x, s, b) as int;
    let tx = tag_of(x, s, b) as u64;
    let ty = tag_of(y, s, b) as u64;
    lemma_tag_bound(x, s, b);
    lemma_tag_bound(y, s, b);
    lemma_loads_of_one_set(state, x, y, s, b, (n - 1) as nat);
    assert(alternating(x, y, n).drop_last() =~= alternating(x, y, (n - 1) as nat));
    assert(alternating(tx, ty, n).drop_last() =~= alternating(tx, ty, (n - 1) as nat));
    lemma_one_line_set_thrashes(state.cache.sets[index], tx, ty, state.clock, n);
}

fn empty_set(e: usize) -> (set: CacheSet)
    ensures
        set@ == Seq::new(e as nat, |j: int| free_line()),
{
    let mut lines: Vec<CacheLine> = Vec::new();
    let mut j: usize = 0;
    while j < e
        invariant
            j <= e,
            lines@.len() == j,
            forall|k: int| 0 <= k < j ==> lines@[k] == free_line(),
        decreases e - j,
    {
        lines.push(CacheLine { valid: false, tag: 0, last_used: 0 });
        j += 1;
    }
    assert(lines@ =~= Seq::new(e as nat, |j: int| free_line()));
    CacheSet { lines }
}

impl Cache {
    /// Builds a cache of `2^s` sets of `e` lines each. Every line is free
    /// and every tally is zero.
    pub fn new(s: usize, e: usize) -> (cache: Cache)
        requires
            pow2(s as nat) <= usize::MAX,
        ensures
            cache@ == CacheState::empty(s as nat, e as nat),
            cache.sets@.len() == pow2(s as nat),
            e > 0 ==> cache@.well_formed(),
            cache@.tags_distinct(),
    {
        let mut count: usize = 1;
        let mut k: usize = 0;
        proof {
            lemma2_to64();
        }
        while k < s
            invariant
                k <= s,
                count == pow2(k as nat),
                pow2(s as nat) <= usize::MAX,
            decreases s - k,
        {
            proof {
                lemma_pow2_unfold((k + 1) as nat);
                if k + 1 < s {
                    lemma_pow2_strictly_increases((k + 1) as nat, s as nat);
                }
            }
            count = count * 2;
            k += 1;
        }
        let mut sets: Vec<CacheSet> = Vec::new();
        let mut i: usize = 0;
        while i < count
            invariant
                i <= count,
                sets@.len() == i,
                forall|k: int| 0 <= k < i ==> (#[trigger] sets@[k])@ == Seq::new(e as nat, |j: int| free_line()),
            decreases count - i,
        {
            sets.push(empty_set(e));
            i += 1;
        }
        let cache = Cache { sets, hits: 0, misses: 0, evictions: 0 };
        assert(cache@.sets =~= CacheState::empty(s as nat, e as nat).sets);
        cache
    }

    /// The tallies so far: hits, misses and evictions.
    pub fn totals(&self) -> (r: (u64, u64, u64))
        ensures
            r == (self.hits, self.misses, self.evictions),
    {
        (self.hits, self.misses, self.evictions)
    }

    /// Performs one access of a run and counts what it did.
    ///
    /// The set that the address selects must exist and have a line, and the
    /// clock and the tallies must have room for what the access adds.
    pub fn process(&mut self, operation: char, address: u64, s: usize, b: usize, current_time: &mut u64)
        requires
            set_index_of(address, s as nat, b as nat) < old(self)@.sets.len(),
            old(self)@.sets[set_index_of(address, s as nat, b as nat) as int].len() > 0,
            process_of(
                running(old(self)@, *old(current_time) as nat),
                operation,
                address,
                s as nat,
                b as nat,
            ).clock <= u64::MAX,
            process_of(
                running(old(self)@, *old(current_time) as nat),
                operation,
                address,
                s as nat,
                b as nat,
            ).cache.tallies_fit(),
        ensures
            running(final(self)@, *final(current_time) as nat) == process_of(
                running(old(self)@, *old(current_time) as nat),
                operation,
                address,
                s as nat,
                b as nat,
            ),
    {
        let (index, tag) = calculate_index_and_tag(address, s, b);
        proof {
            assert(self@.sets.len() == self.sets.len());
            assert(self@.sets[index as int] == self.sets@[index as int]@);
            lemma_first_hit(self.sets@[index as int]@, tag);
        }
        let (hit, evicted) = self.sets[index].access(tag, current_time);
        if hit {
            self.hits += 1;
        } else {
            self.misses += 1;
            if evicted {
                self.evictions += 1;
            }
        }
        if operation == 'M' {
            self.hits += 1;
        }
        assert(self@.sets =~= process_of(
            running(old(self)@, *old(current_time) as nat),
            operation,
            address,
            s as nat,
            b as nat,
        ).cache.sets);
    }
}

} // verus!
