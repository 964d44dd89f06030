//! Replaying a whole trace against a cache.

use vstd::prelude::*;
use vstd::arithmetic::power2::pow2;
use crate::address::{lemma_set_index_bound, lemma_tag_bound, set_index_of, tag_of};
use crate::cache::{process_of, running, Cache, Replay};
use crate::set::{lemma_access_keeps_tags_distinct, tags_distinct};
use crate::trace::{entry_of, parse_trace_line, well_formed_line};

verus! {

/// The text of each line.
pub open spec fn texts(lines: Seq<String>) -> Seq<Seq<char>> {
    Seq::new(lines.len(), |i: int| lines[i]@)
}

/// Every line is one that a trace may hold.
pub open spec fn well_formed_trace(lines: Seq<Seq<char>>) -> bool {
    forall|i: int| 0 <= i < lines.len() ==> well_formed_line(#[trigger] lines[i])
}

/// What one line does to a run: an instruction fetch nothing, a data access
/// one step of the cache.
pub open spec fn line_of(state: Replay, line: Seq<char>, s: nat, b: nat) -> Replay {
    match entry_of(line) {
        Some(entry) => process_of(state, entry.0, entry.1, s, b),
        None => state,
    }
}

/// The run after `lines`, taken in order from `state`.
pub open spec fn replay_of(state: Replay, lines: Seq<Seq<char>>, s: nat, b: nat) -> Replay
    decreases lines.len(),
{
    if lines.len() == 0 {
        state
    } else {
        replay_of(line_of(state, lines[0], s, b), lines.drop_first(), s, b)
    }
}

/// One line keeps the number of sets and the size of each, and moves the
/// clock and the tallies forward only: the clock and the misses by at most
/// one, the hits by at most two, the evictions by no more than the misses.
pub proof fn lemma_line_moves_forward(state: Replay, line: Seq<char>, s: nat, b: nat)
    requires
        state.cache.well_formed(),
        pow2(s) <= state.cache.sets.len(),
    ensures
        ({
            let next = line_of(state, line, s, b);
            &&& next.cache.well_formed()
            &&& next.cache.sets.len() == state.cache.sets.len()
            &&& state.clock <= next.clock <= state.clock + 1
            &&& state.cache.hits <= next.cache.hits <= state.cache.hits + 2
            &&& next.cache.misses - state.cache.misses == next.clock - state.clock
            &&& state.cache.evictions <= next.cache.evictions
            &&& next.cache.evictions - state.cache.evictions <= next.cache.misses
                - state.cache.misses
        }),
{
    if let Some(entry) = entry_of(line) {
        let index = set_index_of(entry.1, s, b) as int;
        lemma_set_index_bound(entry.1, s, b);
        lemma_tag_bound(entry.1, s, b);
        let tag = tag_of(entry.1, s, b) as u64;
        let next = line_of(state, line, s, b);
        assert(state.cache.sets[index].len() > 0);
        lemma_access_keeps_tags_distinct(state.cache.sets[index], tag, state.clock);
        assert forall|i: int| 0 <= i < next.cache.sets.len() implies (
        #[trigger] next.cache.sets[i]).len() > 0 by {
            assert(state.cache.sets[i].len() > 0);
        }
    }
}

/// Over a whole trace the tallies only grow, and by no more than the trace
/// allows: each line adds at most two hits, one miss and one eviction, and
/// the clock counts the misses.
pub proof fn lemma_replay_moves_forward(state: Replay, lines: Seq<Seq<char>>, s: nat, b: nat)
    requires
        state.cache.well_formed(),
        pow2(s) <= state.cache.sets.len(),
    ensures
        ({
            let end = replay_of(state, lines, s, b);
            &&& end.cache.well_formed()
            &&& end.cache.sets.len() == state.cache.sets.len()
            &&& state.clock <= end.clock <= state.clock + lines.len()
            &&& state.cache.hits <= end.cache.hits <= state.cache.hits + 2 * lines.len()
            &&& end.cache.misses - state.cache.misses == end.clock - state.clock
            &&& state.cache.evictions <= end.cache.evictions
            &&& end.cache.evictions - state.cache.evictions <= end.cache.misses
                - state.cache.misses
        }),
    decreases lines.len(),
{
    if lines.len() > 0 {
        lemma_line_moves_forward(state, lines[0], s, b);
        lemma_replay_moves_forward(line_of(state, lines[0], s, b), lines.drop_first(), s, b);
    }
}

/// A run never brings one live tag into two lines of a set.
pub proof fn lemma_replay_keeps_tags_distinct(state: Replay, lines: Seq<Seq<char>>, s: nat, b: nat)
    requires
        state.cache.well_formed(),
        pow2(s) <= state.cache.sets.len(),
        state.cache.tags_distinct(),
    ensures
        replay_of(state, lines, s, b).cache.tags_distinct(),
    decreases lines.len(),
{
    if lines.len() > 0 {
        let next = line_of(state, lines[0], s, b);
        lemma_line_moves_forward(state, lines[0], s, b);
        if let Some(entry) = entry_of(lines[0]) {
            let index = set_index_of(entry.1, s, b) as int;
            lemma_set_index_bound(entry.1, s, b);
            lemma_tag_bound(entry.1, s, b);
            let tag = tag_of(entry.1, s, b) as u64;
            assert(state.cache.sets[index].len() > 0);
            assert(tags_distinct(state.cache.sets[index]));
            lemma_access_keeps_tags_distinct(state.cache.sets[index], tag, state.clock);
            assert forall|i: int| 0 <= i < next.cache.sets.len() implies tags_distinct(
                #[trigger] next.cache.sets[i],
            ) by {
                assert(tags_distinct(state.cache.sets[i]));
            }
        }
        lemma_replay_keeps_tags_distinct(next, lines.drop_first(), s, b);
    }
}

/// Replays `lines` in order against `cache`, with a clock that starts at
/// zero, and leaves the cache and its tallies as the run leaves them.
///
/// Instruction fetches are passed over. Every line must be well formed,
/// every set that `s` bits can select must exist and have a line, and the
/// tallies at the end of the run must fit in 64 bits.
pub fn hits_misses_evictions_calc(cache: &mut Cache, lines: Vec<String>, s: usize, b: usize)
    requires
        well_formed_trace(texts(lines@)),
        old(cache)@.well_formed(),
        pow2(s as nat) <= old(cache)@.sets.len(),
        replay_of(running(old(cache)@, 0), texts(lines@), s as nat, b as nat).cache.tallies_fit(),
    ensures
        final(cache)@ == replay_of(running(old(cache)@, 0), texts(lines@), s as nat, b as nat).cache,
        final(cache)@.sets.len() == old(cache)@.sets.len(),
        final(cache)@.well_formed(),
        old(cache)@.tags_distinct() ==> final(cache)@.tags_distinct(),
        old(cache).hits <= final(cache).hits <= old(cache).hits + 2 * lines@.len(),
        old(cache).misses <= final(cache).misses <= old(cache).misses + lines@.len(),
        old(cache).evictions <= final(cache).evictions,
        final(cache).evictions - old(cache).evictions <= final(cache).misses - old(cache).misses,
{
    let ghost trace = texts(lines@);
    proof {
        lemma_replay_moves_forward(running(cache@, 0), trace, s as nat, b as nat);
        if cache@.tags_distinct() {
            lemma_replay_keeps_tags_distinct(running(cache@, 0), trace, s as nat, b as nat);
        }
    }
    let ghost end = replay_of(running(old(cache)@, 0), trace, s as nat, b as nat);
    let mut current_time: u64 = 0;
    let n: usize = lines.len();
    let mut i: usize = 0;
    assert(trace.subrange(0, n as int) =~= trace);
    while i < n
        invariant
            n == lines@.len(),
            i <= n,
            trace == texts(lines@),
            well_formed_trace(trace),
            current_time <= i,
            cache@.well_formed(),
            pow2(s as nat) <= cache@.sets.len(),
            end.cache.tallies_fit(),
            replay_of(
                running(cache@, current_time as nat),
                trace.subrange(i as int, n as int),
                s as nat,
                b as nat,
            ) == end,
        decreases n - i,
    {
        let ghost here = running(cache@, current_time as nat);
        let ghost rest = trace.subrange(i + 1, n as int);
        proof {
            assert(trace.subrange(i as int, n as int).drop_first() =~= rest);
            assert(trace.subrange(i as int, n as int)[0] == trace[i as int]);
            assert(trace[i as int] == lines@[i as int]@);
            assert(well_formed_line(trace[i as int]));
            lemma_line_moves_forward(here, trace[i as int], s as nat, b as nat);
            lemma_replay_moves_forward(
                line_of(here, trace[i as int], s as nat, b as nat),
                rest,
                s as nat,
                b as nat,
            );
        }
        match parse_trace_line(lines[i].as_str()) {
            Some(entry) => {
                proof {
                    lemma_set_index_bound(entry.1, s as nat, b as nat);
                }
                cache.process(entry.0, entry.1, s, b, &mut current_time);
            },
            None => {},
        }
        i += 1;
    }
}

} // verus!
