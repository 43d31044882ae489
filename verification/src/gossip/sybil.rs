//! Per-peer admission cap: each peer may deliver at most `max_per_window`
//! messages per window; the rest are dropped and counted.
use vstd::prelude::*;
use std::time::{Duration, Instant};
use crate::text::str_eq;
use crate::clock::{duration_nanos, elapsed_nanos, instant_now, nanos_of, nanos_since};

verus! {

struct PeerBucket {
    peer: String,
    count: u64,
    window_start: Instant,
}

/// Counts, per peer, the messages admitted in the peer's current window.
pub struct RateClipper {
    buckets: Vec<PeerBucket>,
    max_per_window: u64,
    window_nanos: u128,
    dropped: u64,
}

/// One more than `d`, wrapping to zero past `u64::MAX` as an atomic counter
/// does.
pub open spec fn bumped(d: u64) -> u64 {
    if d == u64::MAX {
        0
    } else {
        (d + 1) as u64
    }
}

/// What one admission decision does to the per-peer counts and the drop
/// counter, given whether the peer's window has run out: the answer, the new
/// counts, the new drop count. A cap of zero admits everything and records
/// nothing. Otherwise the peer's count (zero for a peer not yet seen, or when
/// its window has run out) is compared with the cap: under it, the message is
/// admitted and counted; at it, the message is dropped and the drop counted.
pub open spec fn admit_step(
    counts: Map<Seq<char>, u64>,
    dropped: u64,
    max: u64,
    peer: Seq<char>,
    window_over: bool,
) -> (bool, Map<Seq<char>, u64>, u64) {
    if max == 0 {
        (true, counts, dropped)
    } else {
        let c: u64 = if window_over || !counts.contains_key(peer) {
            0
        } else {
            counts[peer]
        };
        if c >= max {
            (false, counts.insert(peer, c), bumped(dropped))
        } else {
            (true, counts.insert(peer, (c + 1) as u64), dropped)
        }
    }
}

/// Every count is within the cap (when there is one).
pub open spec fn within_cap(counts: Map<Seq<char>, u64>, max: u64) -> bool {
    max > 0 ==> forall|p: Seq<char>| #[trigger] counts.contains_key(p) ==> counts[p] <= max
}

spec fn peers_of(bs: Seq<PeerBucket>) -> Seq<Seq<char>> {
    bs.map_values(|b: PeerBucket| b.peer@)
}

spec fn counts_of(bs: Seq<PeerBucket>) -> Map<Seq<char>, u64> {
    Map::new(
        |p: Seq<char>| peers_of(bs).contains(p),
        |p: Seq<char>| bs[peers_of(bs).index_of(p)].count,
    )
}

spec fn starts_of(bs: Seq<PeerBucket>) -> Map<Seq<char>, Instant> {
    Map::new(
        |p: Seq<char>| peers_of(bs).contains(p),
        |p: Seq<char>| bs[peers_of(bs).index_of(p)].window_start,
    )
}

/// Where each peer's window opened after one admission decision at `now`:
/// a fresh window opens at `now` for a peer not yet seen or whose window has
/// run out; every other start stays. A cap of zero records nothing.
pub open spec fn start_step(
    starts: Map<Seq<char>, Instant>,
    max: u64,
    peer: Seq<char>,
    window_over: bool,
    now: Instant,
) -> Map<Seq<char>, Instant> {
    if max == 0 {
        starts
    } else if window_over || !starts.contains_key(peer) {
        starts.insert(peer, now)
    } else {
        starts
    }
}

fn find_bucket(bs: &Vec<PeerBucket>, peer: &str) -> (r: Option<usize>)
    ensures
        r matches Some(i) ==> i < bs@.len() && peers_of(bs@)[i as int] == peer@,
        r is None ==> !peers_of(bs@).contains(peer@),
{
    let n = bs.len();
    let mut i: usize = 0;
    while i < n
        invariant
            n == bs@.len(),
            i <= n,
            forall|j: int| 0 <= j < i ==> peers_of(bs@)[j] != peer@,
        decreases n - i,
    {
        if str_eq(bs[i].peer.as_str(), peer) {
            return Some(i);
        }
        i = i + 1;
    }
    None
}

proof fn lemma_index_of(bs: Seq<PeerBucket>, i: int)
    requires
        peers_of(bs).no_duplicates(),
        0 <= i < bs.len(),
    ensures
        peers_of(bs).index_of(peers_of(bs)[i]) == i,
{
    let p = peers_of(bs)[i];
    assert(peers_of(bs).contains(p));
    let k = peers_of(bs).index_of(p);
    assert(0 <= k < peers_of(bs).len() && peers_of(bs)[k] == p);
}

/// Adding a bucket for a peer not yet present leaves the others' counts as
/// they were and gives the new peer its bucket's count.
proof fn lemma_push_bucket(bs: Seq<PeerBucket>, b: PeerBucket)
    requires
        peers_of(bs).no_duplicates(),
        !peers_of(bs).contains(b.peer@),
    ensures
        peers_of(bs.push(b)) == peers_of(bs).push(b.peer@),
        peers_of(bs.push(b)).no_duplicates(),
        counts_of(bs.push(b)) == counts_of(bs).insert(b.peer@, b.count),
        starts_of(bs.push(b)) == starts_of(bs).insert(b.peer@, b.window_start),
{
    let nb = bs.push(b);
    assert(peers_of(nb) =~= peers_of(bs).push(b.peer@));
    lemma_index_of(nb, bs.len() as int);
    assert forall|p: Seq<char>| #[trigger] counts_of(nb).contains_key(p) <==> counts_of(bs).insert(b.peer@, b.count).contains_key(p) by {
        if p == b.peer@ {
            assert(peers_of(nb)[bs.len() as int] == p);
        } else if peers_of(bs).contains(p) {
            let k = peers_of(bs).index_of(p);
            assert(peers_of(nb)[k] == p);
        }
    }
    assert forall|p: Seq<char>| #[trigger] counts_of(nb).contains_key(p) implies counts_of(nb)[p] == counts_of(bs).insert(b.peer@, b.count)[p] by {
        if p != b.peer@ {
            let k = peers_of(nb).index_of(p);
            assert(0 <= k < peers_of(nb).len() && peers_of(nb)[k] == p);
            assert(k < bs.len());
            assert(peers_of(bs)[k] == p);
            lemma_index_of(bs, k);
            lemma_index_of(nb, k);
        }
    }
    assert(counts_of(nb) =~= counts_of(bs).insert(b.peer@, b.count));
    assert forall|p: Seq<char>| #[trigger] starts_of(nb).contains_key(p) implies starts_of(nb)[p] == starts_of(bs).insert(b.peer@, b.window_start)[p] by {
        if p != b.peer@ {
            let k = peers_of(nb).index_of(p);
            assert(0 <= k < peers_of(nb).len() && peers_of(nb)[k] == p);
            assert(k < bs.len());
            assert(peers_of(bs)[k] == p);
            lemma_index_of(bs, k);
            lemma_index_of(nb, k);
        }
    }
    assert(starts_of(nb) =~= starts_of(bs).insert(b.peer@, b.window_start));
}

/// Replacing the bucket at `i` by one for the same peer changes only that
/// peer's count and window start.
proof fn lemma_set_bucket(bs: Seq<PeerBucket>, i: int, b: PeerBucket)
    requires
        peers_of(bs).no_duplicates(),
        0 <= i < bs.len(),
        bs[i].peer@ == b.peer@,
    ensures
        peers_of(bs.update(i, b)) == peers_of(bs),
        counts_of(bs.update(i, b)) == counts_of(bs).insert(b.peer@, b.count),
        starts_of(bs.update(i, b)) == starts_of(bs).insert(b.peer@, b.window_start),
{
    let nb = bs.update(i, b);
    assert(peers_of(nb) =~= peers_of(bs));
    lemma_index_of(bs, i);
    assert forall|p: Seq<char>| #[trigger] counts_of(nb).contains_key(p) <==> counts_of(bs).insert(b.peer@, b.count).contains_key(p) by {
        if p == b.peer@ {
            assert(peers_of(bs)[i] == p);
        }
    }
    assert forall|p: Seq<char>| #[trigger] counts_of(nb).contains_key(p) implies counts_of(nb)[p] == counts_of(bs).insert(b.peer@, b.count)[p] by {
        let k = peers_of(nb).index_of(p);
        assert(0 <= k < peers_of(nb).len() && peers_of(nb)[k] == p);
        if p != b.peer@ {
            assert(k != i);
        }
    }
    assert(counts_of(nb) =~= counts_of(bs).insert(b.peer@, b.count));
    assert forall|p: Seq<char>| #[trigger] starts_of(nb).contains_key(p) implies starts_of(nb)[p] == starts_of(bs).insert(b.peer@, b.window_start)[p] by {
        let k = peers_of(nb).index_of(p);
        assert(0 <= k < peers_of(nb).len() && peers_of(nb)[k] == p);
        if p != b.peer@ {
            assert(k != i);
        }
    }
    assert(starts_of(nb) =~= starts_of(bs).insert(b.peer@, b.window_start));
}

/// A cap of zero admits every message and records nothing.
pub proof fn lemma_zero_cap_admits_all(
    counts: Map<Seq<char>, u64>,
    dropped: u64,
    peer: Seq<char>,
    window_over: bool,
)
    ensures
        admit_step(counts, dropped, 0, peer, window_over) == (true, counts, dropped),
{
}

/// Each peer has a bucket of its own: a decision about one peer leaves every
/// other peer's count as it was.
pub proof fn lemma_peers_independent(
    counts: Map<Seq<char>, u64>,
    dropped: u64,
    max: u64,
    peer: Seq<char>,
    other: Seq<char>,
    window_over: bool,
)
    requires
        other != peer,
    ensures
        admit_step(counts, dropped, max, peer, window_over).1.contains_key(other)
            == counts.contains_key(other),
        counts.contains_key(other) ==> admit_step(counts, dropped, max, peer, window_over).1[other]
            == counts[other],
{
}

/// Within one window a peer is admitted at most `max` times: once its count
/// reaches the cap, every further message in the window is dropped and the
/// drop is counted; and no count ever exceeds the cap.
pub proof fn lemma_cap_holds_within_window(
    counts: Map<Seq<char>, u64>,
    dropped: u64,
    max: u64,
    peer: Seq<char>,
    window_over: bool,
)
    requires
        within_cap(counts, max),
    ensures
        within_cap(admit_step(counts, dropped, max, peer, window_over).1, max),
        max > 0 && !window_over && counts.contains_key(peer) && counts[peer] == max ==> {
            let (ok, after, d) = admit_step(counts, dropped, max, peer, window_over);
            !ok && after == counts && d == bumped(dropped)
        },
{
    let after = admit_step(counts, dropped, max, peer, window_over).1;
    if max > 0 {
        assert forall|p: Seq<char>| #[trigger] after.contains_key(p) implies after[p] <= max by {
            if p != peer {
                assert(counts.contains_key(p));
            }
        }
        if !window_over && counts.contains_key(peer) && counts[peer] == max {
            assert(counts.insert(peer, max) =~= counts);
        }
    }
}

/// Once a peer's window has run out its capacity is restored: the next
/// message is admitted and opens a count of one.
pub proof fn lemma_window_restores_capacity(
    counts: Map<Seq<char>, u64>,
    dropped: u64,
    max: u64,
    peer: Seq<char>,
)
    requires
        max > 0,
    ensures
        admit_step(counts, dropped, max, peer, true) == (true, counts.insert(peer, 1), dropped),
{
}

/// The drop counter moves by one exactly when a message is dropped.
pub proof fn lemma_drops_counted(
    counts: Map<Seq<char>, u64>,
    dropped: u64,
    max: u64,
    peer: Seq<char>,
    window_over: bool,
)
    ensures
        ({
            let (ok, after, d) = admit_step(counts, dropped, max, peer, window_over);
            d == if ok { dropped } else { bumped(dropped) }
        }),
{
}

/// A run of admission decisions, each a peer and whether its window had run
/// out: the counts and drop counter after them, and how many were refused.
pub open spec fn admit_run(
    counts: Map<Seq<char>, u64>,
    dropped: u64,
    max: u64,
    events: Seq<(Seq<char>, bool)>,
) -> (Map<Seq<char>, u64>, u64, nat)
    decreases events.len(),
{
    if events.len() == 0 {
        (counts, dropped, 0)
    } else {
        let (c0, d0, n0) = admit_run(counts, dropped, max, events.drop_last());
        let (ok, c1, d1) = admit_step(c0, d0, max, events.last().0, events.last().1);
        (c1, d1, if ok { n0 } else { n0 + 1 })
    }
}

/// Over any run of decisions the drop counter has moved by exactly the
/// number of refused messages (modulo 2^64, where it wraps): a clipper fresh
/// from `RateClipper::new`, after any sequence of `admit_now`, `admit_at` or
/// `admit_after` calls (each is one `admit_step`), counts exactly the calls
/// that answered `false`. With a cap of zero nothing is ever refused and
/// nothing changes.
pub proof fn lemma_drops_equal_refusals(
    counts: Map<Seq<char>, u64>,
    dropped: u64,
    max: u64,
    events: Seq<(Seq<char>, bool)>,
)
    ensures
        admit_run(counts, dropped, max, events).1 == (dropped + admit_run(counts, dropped, max, events).2)
            % 0x1_0000_0000_0000_0000,
        max == 0 ==> admit_run(counts, dropped, max, events) == (counts, dropped, 0nat),
        dropped == 0 ==> admit_run(counts, dropped, max, events).1 == admit_run(counts, dropped, max, events).2
            % 0x1_0000_0000_0000_0000,
    decreases events.len(),
{
    if events.len() > 0 {
        lemma_drops_equal_refusals(counts, dropped, max, events.drop_last());
        let (c0, d0, n0) = admit_run(counts, dropped, max, events.drop_last());
        let (ok, c1, d1) = admit_step(c0, d0, max, events.last().0, events.last().1);
        if !ok {
            assert(d1 == bumped(d0));
            assert(bumped(d0) == (d0 + 1) % 0x1_0000_0000_0000_0000);
            assert(((dropped + n0) % 0x1_0000_0000_0000_0000 + 1) % 0x1_0000_0000_0000_0000
                == (dropped + n0 + 1) % 0x1_0000_0000_0000_0000) by (nonlinear_arith);
        }
    }
}

/// Whether `peer`'s window has run out by `now`: it has a window, and the
/// time elapsed since it opened has reached the window's length.
pub open spec fn window_ran_out(starts: Map<Seq<char>, Instant>, peer: Seq<char>, now: Instant, len: u128) -> bool {
    starts.contains_key(peer) && elapsed_nanos(now, starts[peer]) >= len
}

impl RateClipper {
    #[verifier::type_invariant]
    spec fn well_formed(self) -> bool {
        &&& peers_of(self.buckets@).no_duplicates()
        &&& within_cap(counts_of(self.buckets@), self.max_per_window)
    }

    /// How many messages each known peer has had admitted in its window.
    pub closed spec fn counts(self) -> Map<Seq<char>, u64> {
        counts_of(self.buckets@)
    }

    /// Where each known peer's current window opened.
    pub closed spec fn starts(self) -> Map<Seq<char>, Instant> {
        starts_of(self.buckets@)
    }

    /// The cap per window.
    pub closed spec fn cap(self) -> u64 {
        self.max_per_window
    }

    /// The window's length in nanoseconds.
    pub closed spec fn window_len(self) -> u128 {
        self.window_nanos
    }

    /// How many messages were dropped (wrapping at `u64::MAX`).
    pub closed spec fn drops(self) -> u64 {
        self.dropped
    }

    /// A clipper admitting at most `max_per_window` messages per peer per
    /// `window`; zero means no cap.
    pub fn new(max_per_window: u64, window: Duration) -> (r: Self)
        ensures
            r.counts() == Map::<Seq<char>, u64>::empty(),
            r.starts() == Map::<Seq<char>, Instant>::empty(),
            r.cap() == max_per_window,
            r.window_len() == nanos_of(window),
            r.drops() == 0,
    {
        let buckets: Vec<PeerBucket> = Vec::new();
        assert(counts_of(buckets@) =~= Map::<Seq<char>, u64>::empty());
        assert(starts_of(buckets@) =~= Map::<Seq<char>, Instant>::empty());
        RateClipper {
            buckets,
            max_per_window,
            window_nanos: duration_nanos(window),
            dropped: 0,
        }
    }

    /// Admits or drops one message from `peer`, given how many nanoseconds
    /// have passed since the peer's window opened (`now` itself for a peer not
    /// yet seen). The window has run out when that reaches the window length;
    /// a fresh window then opens at `now`.
    pub fn admit_after(&mut self, peer: &str, now: Instant, since_window_start: u128) -> (r: bool)
        ensures
            (r, final(self).counts(), final(self).drops()) == admit_step(
                old(self).counts(),
                old(self).drops(),
                old(self).cap(),
                peer@,
                since_window_start >= old(self).window_len(),
            ),
            final(self).starts() == start_step(
                old(self).starts(),
                old(self).cap(),
                peer@,
                since_window_start >= old(self).window_len(),
                now,
            ),
            final(self).cap() == old(self).cap(),
            final(self).window_len() == old(self).window_len(),
            final(self).drops() == if r { old(self).drops() } else { bumped(old(self).drops()) },
    {
        proof {
            use_type_invariant(&*self);
        }
        if self.max_per_window == 0 {
            return true;
        }
        let window_over = since_window_start >= self.window_nanos;
        let ghost old_counts = counts_of(self.buckets@);
        let ghost old_starts = starts_of(self.buckets@);
        let mut buckets: Vec<PeerBucket> = Vec::new();
        std::mem::swap(&mut buckets, &mut self.buckets);
        let idx = match find_bucket(&buckets, peer) {
            Some(i) => i,
            None => {
                let b = PeerBucket { peer: String::from_str(peer), count: 0, window_start: now };
                proof {
                    lemma_push_bucket(buckets@, b);
                }
                buckets.push(b);
                buckets.len() - 1
            },
        };
        proof {
            lemma_index_of(buckets@, idx as int);
        }
        let ghost mid_counts = counts_of(buckets@);
        assert(mid_counts[peer@] == (if old_counts.contains_key(peer@) { old_counts[peer@] } else { 0 }));
        assert(old_starts.contains_key(peer@) == old_counts.contains_key(peer@));
        let ghost mid_starts = starts_of(buckets@);
        assert(mid_starts[peer@] == (if old_starts.contains_key(peer@) { old_starts[peer@] } else { now }));
        let mut count = buckets[idx].count;
        let mut window_start = buckets[idx].window_start;
        if window_over {
            count = 0;
            window_start = now;
        }
        let admitted = count < self.max_per_window;
        if admitted {
            count = count + 1;
        }
        let b = PeerBucket { peer: String::from_str(peer), count, window_start };
        proof {
            lemma_set_bucket(buckets@, idx as int, b);
            assert(counts_of(buckets@.update(idx as int, b)) =~= admit_step(
                old_counts, self.dropped, self.max_per_window, peer@, window_over).1);
            assert(starts_of(buckets@.update(idx as int, b)) =~= start_step(
                old_starts, self.max_per_window, peer@, window_over, now));
        }
        buckets.set(idx, b);
        self.buckets = buckets;
        if !admitted {
            self.dropped = self.dropped.wrapping_add(1);
        }
        admitted
    }

    /// Admits or drops one message from `peer` arriving at `now`: the
    /// peer's window has run out when the time elapsed since it opened
    /// reaches the window's length (see `admit_after`).
    pub fn admit_at(&mut self, peer: &str, now: Instant) -> (r: bool)
        ensures
            (r, final(self).counts(), final(self).drops()) == admit_step(
                old(self).counts(),
                old(self).drops(),
                old(self).cap(),
                peer@,
                window_ran_out(old(self).starts(), peer@, now, old(self).window_len()),
            ),
            final(self).starts() == start_step(
                old(self).starts(),
                old(self).cap(),
                peer@,
                window_ran_out(old(self).starts(), peer@, now, old(self).window_len()),
                now,
            ),
            final(self).cap() == old(self).cap(),
            final(self).window_len() == old(self).window_len(),
            final(self).drops() == if r { old(self).drops() } else { bumped(old(self).drops()) },
    {
        proof {
            use_type_invariant(&*self);
        }
        let ghost over = window_ran_out(self.starts(), peer@, now, self.window_len());
        if self.max_per_window == 0 {
            assert((true, self.counts(), self.drops()) == admit_step(
                self.counts(), self.drops(), self.cap(), peer@, over));
            return true;
        }
        let since = match find_bucket(&self.buckets, peer) {
            Some(i) => {
                proof {
                    lemma_index_of(self.buckets@, i as int);
                    assert(starts_of(self.buckets@).contains_key(peer@));
                }
                nanos_since(now, self.buckets[i].window_start)
            },
            None => {
                proof {
                    assert(!starts_of(self.buckets@).contains_key(peer@));
                    assert(!counts_of(self.buckets@).contains_key(peer@));
                }
                0
            },
        };
        self.admit_after(peer, now, since)
    }

    /// Admits or drops one message from `peer` arriving now (see `admit_at`).
    pub fn admit_now(&mut self, peer: &str) -> (r: bool)
        ensures
            exists|now: Instant|
                {
                    &&& (r, final(self).counts(), final(self).drops()) == admit_step(
                        old(self).counts(),
                        old(self).drops(),
                        old(self).cap(),
                        peer@,
                        #[trigger] window_ran_out(old(self).starts(), peer@, now, old(self).window_len()),
                    )
                    &&& final(self).starts() == start_step(
                        old(self).starts(),
                        old(self).cap(),
                        peer@,
                        window_ran_out(old(self).starts(), peer@, now, old(self).window_len()),
                        now,
                    )
                },
            final(self).cap() == old(self).cap(),
            final(self).window_len() == old(self).window_len(),
            final(self).drops() == if r { old(self).drops() } else { bumped(old(self).drops()) },
    {
        let now = instant_now();
        self.admit_at(peer, now)
    }

    /// How many messages have been dropped.
    pub fn dropped_count(&self) -> (r: u64)
        ensures
            r == self.drops(),
    {
        self.dropped
    }
}

/// How many of a run of answers were refusals.
pub open spec fn refusals_in(answers: Seq<bool>) -> nat
    decreases answers.len(),
{
    if answers.len() == 0 {
        0
    } else {
        refusals_in(answers.drop_last()) + if answers.last() { 0nat } else { 1nat }
    }
}

/// Over any sequence of calls on one clipper, the drop counter moves by the
/// number of calls that answered `false` (modulo 2^64, where it wraps):
/// `states[i]` is the clipper before call `i` and `states[i + 1]` after it,
/// each call being one `admit_step` (as `admit_now`, `admit_at` and
/// `admit_after` each ensure). A clipper fresh from `new` therefore counts
/// exactly its refused calls, and with a cap of zero it refuses none.
pub proof fn lemma_dropped_count_over_calls(
    states: Seq<RateClipper>,
    answers: Seq<bool>,
    events: Seq<(Seq<char>, bool)>,
)
    requires
        states.len() == answers.len() + 1,
        events.len() == answers.len(),
        forall|i: int|
            0 <= i < answers.len() ==> {
                &&& (answers[i], states[i + 1].counts(), states[i + 1].drops()) == #[trigger] admit_step(
                    states[i].counts(),
                    states[i].drops(),
                    states[i].cap(),
                    events[i].0,
                    events[i].1,
                )
                &&& states[i + 1].cap() == states[i].cap()
            },
    ensures
        states.last().drops() == (states[0].drops() + refusals_in(answers)) % 0x1_0000_0000_0000_0000,
        states.last().cap() == states[0].cap(),
        states[0].cap() == 0 ==> refusals_in(answers) == 0,
    decreases answers.len(),
{
    if answers.len() > 0 {
        let n = answers.len() as int;
        let ps = states.take(n);
        let pa = answers.drop_last();
        let pe = events.drop_last();
        assert forall|i: int| 0 <= i < pa.len() implies {
            &&& (pa[i], ps[i + 1].counts(), ps[i + 1].drops()) == #[trigger] admit_step(
                ps[i].counts(),
                ps[i].drops(),
                ps[i].cap(),
                pe[i].0,
                pe[i].1,
            )
            &&& ps[i + 1].cap() == ps[i].cap()
        } by {
            assert(ps[i] == states[i] && ps[i + 1] == states[i + 1] && pa[i] == answers[i] && pe[i] == events[i]);
            assert((answers[i], states[i + 1].counts(), states[i + 1].drops()) == admit_step(
                states[i].counts(), states[i].drops(), states[i].cap(), events[i].0, events[i].1));
        }
        lemma_dropped_count_over_calls(ps, pa, pe);
        assert(ps.last() == states[n - 1]);
        let k = n - 1;
        assert((answers[k], states[k + 1].counts(), states[k + 1].drops()) == admit_step(
            states[k].counts(), states[k].drops(), states[k].cap(), events[k].0, events[k].1));
        let d0 = states[0].drops();
        let m = refusals_in(pa);
        if !answers[k] {
            assert(bumped(states[k].drops()) == (states[k].drops() + 1) % 0x1_0000_0000_0000_0000);
            assert(((d0 + m) % 0x1_0000_0000_0000_0000 + 1) % 0x1_0000_0000_0000_0000
                == (d0 + m + 1) % 0x1_0000_0000_0000_0000) by (nonlinear_arith);
        }
    }
}

} // verus!
