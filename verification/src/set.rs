//! One set of the cache: a fixed row of lines, searched for a tag and
//! refilled in least-recently-used order.

use vstd::prelude::*;
use vstd::set_lib::lemma_len_subset;

verus! {

/// One slot of a set. While `valid` is false the slot is free and `tag`
/// means nothing; `last_used` is the logical time of the last touch.
#[derive(Clone, Copy, Debug, PartialEq, Eq, Structural)]
pub struct CacheLine {
    pub valid: bool,
    pub tag: u64,
    pub last_used: u64,
}

impl CacheLine {
    /// The line is live and holds `tag`.
    pub open spec fn holds(&self, tag: u64) -> bool {
        self.valid && self.tag == tag
    }

    /// Whether a lookup of `tag` hits this line.
    pub fn is_hit(&self, tag: u64) -> (hit: bool)
        ensures
            hit == self.holds(tag),
    {
        self.valid && self.tag == tag
    }
}

/// The lines of one set, in index order. Its length is the associativity.
pub struct CacheSet {
    pub lines: Vec<CacheLine>,
}

impl View for CacheSet {
    type V = Seq<CacheLine>;

    open spec fn view(&self) -> Seq<CacheLine> {
        self.lines@
    }
}

/// Some line of `lines` is live and holds `tag`.
pub open spec fn resident(lines: Seq<CacheLine>, tag: u64) -> bool {
    exists|i: int| 0 <= i < lines.len() && (#[trigger] lines[i]).holds(tag)
}

/// No two live lines hold the same tag.
pub open spec fn tags_distinct(lines: Seq<CacheLine>) -> bool {
    forall|i: int, j: int|
        0 <= i < j < lines.len() && (#[trigger] lines[i]).valid && (#[trigger] lines[j]).valid
            ==> lines[i].tag != lines[j].tag
}

/// The lowest index whose line holds `tag`, if any line does.
pub open spec fn first_hit(lines: Seq<CacheLine>, tag: u64) -> Option<int>
    decreases lines.len(),
{
    if lines.len() == 0 {
        None
    } else {
        match first_hit(lines.drop_last(), tag) {
            Some(i) => Some(i),
            None => if lines.last().holds(tag) {
                Some(lines.len() - 1)
            } else {
                None
            },
        }
    }
}

/// The index of the least recently used line: the lowest index among the
/// lines with the smallest `last_used`. It is 0 for an empty row.
pub open spec fn lru_index(lines: Seq<CacheLine>) -> int
    decreases lines.len(),
{
    if lines.len() <= 1 {
        0
    } else {
        let before = lru_index(lines.drop_last());
        if lines.last().last_used < lines[before].last_used {
            lines.len() - 1
        } else {
            before
        }
    }
}

/// What `first_hit` returns: the line it names holds the tag and none before
/// it does; it names none exactly when the tag is not resident.
pub proof fn lemma_first_hit(lines: Seq<CacheLine>, tag: u64)
    ensures
        match first_hit(lines, tag) {
            Some(i) => 0 <= i < lines.len() && lines[i].holds(tag) && forall|j: int|
                0 <= j < i ==> !(#[trigger] lines[j]).holds(tag),
            None => forall|j: int| 0 <= j < lines.len() ==> !(#[trigger] lines[j]).holds(tag),
        },
        first_hit(lines, tag) is Some <==> resident(lines, tag),
    decreases lines.len(),
{
    if lines.len() > 0 {
        lemma_first_hit(lines.drop_last(), tag);
        assert(forall|j: int| 0 <= j < lines.len() - 1 ==> lines.drop_last()[j] == lines[j]);
    }
    if let Some(i) = first_hit(lines, tag) {
        assert(lines[i].holds(tag));
    }
}

/// What `lru_index` returns: no line is older than the one it names, and
/// every line before that one is strictly younger.
pub proof fn lemma_lru_index(lines: Seq<CacheLine>)
    requires
        lines.len() > 0,
    ensures
        0 <= lru_index(lines) < lines.len(),
        forall|j: int|
            0 <= j < lines.len() ==> lines[lru_index(lines)].last_used <= (
            #[trigger] lines[j]).last_used,
        forall|j: int|
            0 <= j < lru_index(lines) ==> lines[lru_index(lines)].last_used < (
            #[trigger] lines[j]).last_used,
    decreases lines.len(),
{
    if lines.len() > 1 {
        lemma_lru_index(lines.drop_last());
        assert(forall|j: int| 0 <= j < lines.len() - 1 ==> lines.drop_last()[j] == lines[j]);
    }
}

/// The line after a hit at logical time `clock`: only its time changes.
pub open spec fn touched(line: CacheLine, clock: nat) -> CacheLine {
    CacheLine { valid: line.valid, tag: line.tag, last_used: clock as u64 }
}

/// The line that a miss writes at logical time `clock`.
pub open spec fn filled(tag: u64, clock: nat) -> CacheLine {
    CacheLine { valid: true, tag, last_used: clock as u64 }
}

/// The result of one access to a set: the lines and the clock after it,
/// whether it hit, and whether it displaced a live line.
pub ghost struct Access {
    pub lines: Seq<CacheLine>,
    pub clock: nat,
    pub hit: bool,
    pub evicted: bool,
}

/// One access with `tag` at logical time `clock`.
///
/// A hit stamps the first line that holds the tag with the clock as it is.
/// A miss first advances the clock by one, then overwrites the least
/// recently used line, and evicts exactly when that line was live.
pub open spec fn access_of(lines: Seq<CacheLine>, tag: u64, clock: nat) -> Access {
    match first_hit(lines, tag) {
        Some(i) => Access {
            lines: lines.update(i, touched(lines[i], clock)),
            clock,
            hit: true,
            evicted: false,
        },
        None => {
            let victim = lru_index(lines);
            Access {
                lines: lines.update(victim, filled(tag, clock + 1)),
                clock: clock + 1,
                hit: false,
                evicted: lines[victim].valid,
            }
        },
    }
}

/// An access keeps the number of lines, hits exactly when the tag is
/// resident, leaves the tag resident, and keeps live tags distinct.
pub proof fn lemma_access_keeps_tags_distinct(lines: Seq<CacheLine>, tag: u64, clock: nat)
    requires
        lines.len() > 0,
    ensures
        access_of(lines, tag, clock).lines.len() == lines.len(),
        access_of(lines, tag, clock).hit <==> resident(lines, tag),
        resident(access_of(lines, tag, clock).lines, tag),
        tags_distinct(lines) ==> tags_distinct(access_of(lines, tag, clock).lines),
{
    lemma_first_hit(lines, tag);
    lemma_lru_index(lines);
    let after = access_of(lines, tag, clock).lines;
    match first_hit(lines, tag) {
        Some(i) => {
            assert(after[i].holds(tag));
        },
        None => {
            assert(after[lru_index(lines)].holds(tag));
        },
    }
    if tags_distinct(lines) {
        assert forall|i: int, j: int|
            0 <= i < j < after.len() && (#[trigger] after[i]).valid && (#[trigger] after[j]).valid
            implies after[i].tag != after[j].tag by {
            assert(lines[i].valid || !lines[i].holds(tag));
            assert(lines[j].valid || !lines[j].holds(tag));
        }
    }
}

/// No line was used after logical time `clock`.
pub open spec fn stamped_by(lines: Seq<CacheLine>, clock: nat) -> bool {
    forall|i: int| 0 <= i < lines.len() ==> (#[trigger] lines[i]).last_used <= clock
}

/// The line that an access with `tag` touches: the first that holds the
/// tag, or else the least recently used.
pub open spec fn touched_index(lines: Seq<CacheLine>, tag: u64) -> int {
    match first_hit(lines, tag) {
        Some(i) => i,
        None => lru_index(lines),
    }
}

/// An access changes one line and no other. That line then holds the tag
/// and carries the clock of the access, and where no line was used after
/// the clock before the access, none is after it: the line touched last is
/// always among the most recently used.
pub proof fn lemma_access_touches_latest(lines: Seq<CacheLine>, tag: u64, clock: nat)
    requires
        lines.len() > 0,
        clock < u64::MAX,
    ensures
        ({
            let after = access_of(lines, tag, clock);
            let at = touched_index(lines, tag);
            &&& 0 <= at < lines.len()
            &&& after.lines[at].holds(tag)
            &&& after.lines[at].last_used == after.clock
            &&& forall|j: int| 0 <= j < lines.len() && j != at ==> after.lines[j] == lines[j]
            &&& stamped_by(lines, clock) ==> stamped_by(after.lines, after.clock)
        }),
{
    lemma_first_hit(lines, tag);
    lemma_lru_index(lines);
}

/// The tags that the live lines hold.
pub open spec fn live_tags(lines: Seq<CacheLine>) -> Set<u64> {
    Set::new(|tag: u64| resident(lines, tag))
}

/// A set holds no more distinct live tags than it has lines.
pub proof fn lemma_live_tags_bounded(lines: Seq<CacheLine>)
    ensures
        live_tags(lines).finite(),
        live_tags(lines).len() <= lines.len(),
    decreases lines.len(),
{
    if lines.len() == 0 {
        assert(live_tags(lines) =~= Set::<u64>::empty());
    } else {
        let before = lines.drop_last();
        lemma_live_tags_bounded(before);
        let wider = live_tags(before).insert(lines.last().tag);
        assert forall|tag: u64| live_tags(lines).contains(tag) implies wider.contains(tag) by {
            let i = choose|i: int| 0 <= i < lines.len() && (#[trigger] lines[i]).holds(tag);
            if i < lines.len() - 1 {
                assert(before[i].holds(tag));
            }
        }
        lemma_len_subset(live_tags(lines), wider);
    }
}

/// The outcome of the last of the accesses `tags`, made in order from
/// `lines` with the clock at `clock`. With no access at all the lines and
/// the clock are as they were.
pub open spec fn accesses_of(lines: Seq<CacheLine>, tags: Seq<u64>, clock: nat) -> Access
    decreases tags.len(),
{
    if tags.len() == 0 {
        Access { lines, clock, hit: false, evicted: false }
    } else {
        let before = accesses_of(lines, tags.drop_last(), clock);
        access_of(before.lines, tags.last(), before.clock)
    }
}

/// Whatever is accessed, and however often, a set keeps its number of
/// lines, never holds one live tag in two lines, and so never holds more
/// distinct live tags than its associativity.
pub proof fn lemma_accesses_keep_tags_distinct(lines: Seq<CacheLine>, tags: Seq<u64>, clock: nat)
    requires
        lines.len() > 0,
        tags_distinct(lines),
    ensures
        accesses_of(lines, tags, clock).lines.len() == lines.len(),
        tags_distinct(accesses_of(lines, tags, clock).lines),
        live_tags(accesses_of(lines, tags, clock).lines).finite(),
        live_tags(accesses_of(lines, tags, clock).lines).len() <= lines.len(),
    decreases tags.len(),
{
    if tags.len() > 0 {
        lemma_accesses_keep_tags_distinct(lines, tags.drop_last(), clock);
        let before = accesses_of(lines, tags.drop_last(), clock);
        lemma_access_keeps_tags_distinct(before.lines, tags.last(), before.clock);
    }
    lemma_live_tags_bounded(accesses_of(lines, tags, clock).lines);
}

/// The values `a`, `b`, `a`, `b`, ... : `n` of them.
pub open spec fn alternating(a: u64, b: u64, n: nat) -> Seq<u64> {
    Seq::new(
        n,
        |i: int|
            if i % 2 == 0 {
                a
            } else {
                b
            },
    )
}

/// After one or more alternating accesses a set of one line holds the tag
/// accessed last.
proof fn lemma_one_line_holds_last(lines: Seq<CacheLine>, a: u64, b: u64, clock: nat, n: nat)
    requires
        lines.len() == 1,
        n >= 1,
    ensures
        accesses_of(lines, alternating(a, b, n), clock).lines.len() == 1,
        accesses_of(lines, alternating(a, b, n), clock).lines[0].holds(alternating(a, b, n)[n - 1]),
    decreases n,
{
    let tags = alternating(a, b, n);
    assert(tags.drop_last() =~= alternating(a, b, (n - 1) as nat));
    if n > 1 {
        lemma_one_line_holds_last(lines, a, b, clock, (n - 1) as nat);
    }
    let before = accesses_of(lines, tags.drop_last(), clock);
    lemma_first_hit(before.lines, tags.last());
}

/// In a set of one line, two different tags accessed in turn drive each
/// other out: every access after the first is a miss that evicts.
pub proof fn lemma_one_line_set_thrashes(lines: Seq<CacheLine>, a: u64, b: u64, clock: nat, n: nat)
    requires
        lines.len() == 1,
        a != b,
        n >= 2,
    ensures
        !accesses_of(lines, alternating(a, b, n), clock).hit,
        accesses_of(lines, alternating(a, b, n), clock).evicted,
{
    let tags = alternating(a, b, n);
    assert(tags.drop_last() =~= alternating(a, b, (n - 1) as nat));
    lemma_one_line_holds_last(lines, a, b, clock, (n - 1) as nat);
    let before = accesses_of(lines, tags.drop_last(), clock);
    assert(tags[n - 1] != tags[n - 2]);
    lemma_first_hit(before.lines, tags.last());
}

impl CacheSet {
    /// Looks `tag` up at logical time `*current_time` and returns whether
    /// the access hit and whether it evicted a live line.
    ///
    /// A hit leaves the clock as it is; a miss advances it by exactly one
    /// before the least recently used line is overwritten.
    pub fn access(&mut self, tag: u64, current_time: &mut u64) -> (r: (bool, bool))
        requires
            old(self)@.len() > 0,
            !resident(old(self)@, tag) ==> *old(current_time) < u64::MAX,
        ensures
            final(self)@ == access_of(old(self)@, tag, *old(current_time) as nat).lines,
            *final(current_time) as nat == access_of(old(self)@, tag, *old(current_time) as nat).clock,
            r.0 == access_of(old(self)@, tag, *old(current_time) as nat).hit,
            r.1 == access_of(old(self)@, tag, *old(current_time) as nat).evicted,
            final(self)@.len() == old(self)@.len(),
            r.0 <==> resident(old(self)@, tag),
            r.0 ==> !r.1 && *final(current_time) == *old(current_time),
            !r.0 ==> *final(current_time) == *old(current_time) + 1,
            r.1 <==> !r.0 && old(self)@[lru_index(old(self)@)].valid,
            resident(final(self)@, tag),
            tags_distinct(old(self)@) ==> tags_distinct(final(self)@),
            stamped_by(old(self)@, *old(current_time) as nat) ==> stamped_by(
                final(self)@,
                *final(current_time) as nat,
            ),
    {
        let n: usize = self.lines.len();
        let mut i: usize = 0;
        while i < n
            invariant
                n == self.lines.len(),
                i <= n,
                *self == *old(self),
                *current_time == *old(current_time),
                forall|j: int| 0 <= j < i ==> !(#[trigger] self@[j]).holds(tag),
            decreases n - i,
        {
            let line: CacheLine = self.lines[i];
            if line.is_hit(tag) {
                proof {
                    lemma_first_hit(self@, tag);
                    lemma_access_keeps_tags_distinct(self@, tag, *current_time as nat);
                }
                self.lines.set(
                    i,
                    CacheLine { valid: line.valid, tag: line.tag, last_used: *current_time },
                );
                assert(self@ =~= access_of(old(self)@, tag, *old(current_time) as nat).lines);
                return (true, false);
            }
            i += 1;
        }
        proof {
            lemma_first_hit(self@, tag);
        }
        *current_time += 1;
        let mut victim: usize = 0;
        let mut k: usize = 1;
        while k < n
            invariant
                n == self.lines.len(),
                0 <= victim < k <= n,
                *self == *old(self),
                *current_time == *old(current_time) + 1,
                forall|j: int|
                    0 <= j < k ==> self@[victim as int].last_used <= (#[trigger] self@[j]).last_used,
                forall|j: int|
                    0 <= j < victim ==> self@[victim as int].last_used < (
                    #[trigger] self@[j]).last_used,
            decreases n - k,
        {
            if self.lines[k].last_used < self.lines[victim].last_used {
                victim = k;
            }
            k += 1;
        }
        proof {
            lemma_first_hit(self@, tag);
            lemma_lru_index(self@);
            lemma_access_keeps_tags_distinct(self@, tag, *old(current_time) as nat);
        }
        let evicted: bool = self.lines[victim].valid;
        self.lines.set(victim, CacheLine { valid: true, tag, last_used: *current_time });
        assert(self@ =~= access_of(old(self)@, tag, *old(current_time) as nat).lines);
        (false, evicted)
    }
}

} // verus!
