use cachesim::{hits_misses_evictions_calc, Cache, CacheLine};

fn trace(lines: &[&str]) -> Vec<String> {
    let mut owned: Vec<String> = Vec::new();
    for line in lines.iter() {
        owned.push(line.to_string());
    }
    owned
}

#[test]
fn new_cache_is_empty() {
    let cache = Cache::new(3, 2);
    assert_eq!(cache.sets.len(), 8);
    for set in cache.sets.iter() {
        assert_eq!(set.lines.len(), 2);
        for line in set.lines.iter() {
            assert_eq!(*line, CacheLine { valid: false, tag: 0, last_used: 0 });
        }
    }
    assert_eq!(cache.totals(), (0, 0, 0));
}

#[test]
fn cache_without_index_bits_has_one_set() {
    let cache = Cache::new(0, 4);
    assert_eq!(cache.sets.len(), 1);
    assert_eq!(cache.sets[0].lines.len(), 4);
}

#[test]
fn process_counts_one_access() {
    let mut cache = Cache::new(4, 1);
    let mut clock: u64 = 0;
    cache.process('L', 0x10, 4, 4, &mut clock);
    assert_eq!(cache.totals(), (0, 1, 0));
    assert_eq!(clock, 1);
    assert_eq!(cache.sets[1].lines[0], CacheLine { valid: true, tag: 0, last_used: 1 });
    cache.process('S', 0x18, 4, 4, &mut clock);
    assert_eq!(cache.totals(), (1, 1, 0));
    assert_eq!(clock, 1);
    cache.process('L', 0x110, 4, 4, &mut clock);
    assert_eq!(cache.totals(), (1, 2, 1));
    assert_eq!(clock, 2);
    assert_eq!(cache.sets[1].lines[0], CacheLine { valid: true, tag: 1, last_used: 2 });
}

#[test]
fn modify_adds_a_hit_after_a_miss_and_after_a_hit() {
    let mut cache = Cache::new(2, 1);
    let mut clock: u64 = 0;
    cache.process('M', 0x40, 2, 4, &mut clock);
    assert_eq!(cache.totals(), (1, 1, 0));
    cache.process('M', 0x40, 2, 4, &mut clock);
    assert_eq!(cache.totals(), (3, 1, 0));
    assert_eq!(clock, 1);
}

#[test]
fn empty_trace_changes_nothing() {
    let mut cache = Cache::new(2, 2);
    hits_misses_evictions_calc(&mut cache, Vec::new(), 2, 4);
    assert_eq!(cache.totals(), (0, 0, 0));
    hits_misses_evictions_calc(&mut cache, trace(&["I 0400d7d4,8", "I 0400d7d8,4"]), 2, 4);
    assert_eq!(cache.totals(), (0, 0, 0));
}

#[test]
fn direct_mapped_cache_thrashes_on_two_blocks_of_one_set() {
    let mut cache = Cache::new(2, 1);
    let lines = trace(&[" L 100,1", " L 200,1", " L 100,1", " L 200,1", " L 100,1", " L 200,1"]);
    hits_misses_evictions_calc(&mut cache, lines, 2, 4);
    assert_eq!(cache.totals(), (0, 6, 5));
}

#[test]
fn two_way_cache_keeps_both_blocks() {
    let mut cache = Cache::new(2, 2);
    let lines = trace(&[" L 100,1", " L 200,1", " L 100,1", " L 200,1", " M 300,1", " L 100,1"]);
    hits_misses_evictions_calc(&mut cache, lines, 2, 4);
    assert_eq!(cache.totals(), (3, 4, 2));
}

#[test]
fn least_recently_used_block_is_the_one_evicted() {
    let mut cache = Cache::new(0, 2);
    let lines = trace(&[" L 0,1", " L 10,1", " L 0,1", " L 20,1", " L 0,1", " L 10,1"]);
    hits_misses_evictions_calc(&mut cache, lines, 0, 4);
    assert_eq!(cache.hits, 1);
    assert_eq!(cache.misses, 5);
    assert_eq!(cache.evictions, 3);
}

#[test]
fn tallies_carry_over_between_runs() {
    let mut cache = Cache::new(1, 1);
    hits_misses_evictions_calc(&mut cache, trace(&[" L 0,1", " S 4,1"]), 1, 3);
    assert_eq!(cache.totals(), (1, 1, 0));
    hits_misses_evictions_calc(&mut cache, trace(&[" M 0,1", " L 10,1"]), 1, 3);
    assert_eq!(cache.totals(), (3, 2, 1));
}
