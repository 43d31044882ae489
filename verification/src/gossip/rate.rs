//! Per-origin request budget for unauthenticated gossip.
//!
//! A peer's question is a membership oracle: whether we hold something is
//! extractable one probe at a time. A budget slows extraction; it does not
//! close the oracle. Origins are attacker-chosen strings, so the table of
//! budgets is itself bounded.
use vstd::prelude::*;
use std::time::{Duration, Instant};
use crate::gossip::sybil::bumped;
use crate::text::str_eq;
use crate::clock::{duration_nanos, elapsed_nanos, instant_now, nanos_of, nanos_since};

verus! {

/// A real peer resolves a handful of questions a minute; a prober wants
/// thousands.
pub const GOSSIP_QUESTION_PER_MIN: u32 = 30;

/// Bound on the per-origin table itself.
pub const GOSSIP_RATE_MAX_ORIGINS: usize = 1024;

struct Bucket {
    origin: String,
    window_start: Instant,
    count: u32,
}

spec fn origins_of(bs: Seq<Bucket>) -> Seq<Seq<char>> {
    bs.map_values(|b: Bucket| b.origin@)
}

spec fn counts_of(bs: Seq<Bucket>) -> Map<Seq<char>, u32> {
    Map::new(
        |p: Seq<char>| origins_of(bs).contains(p),
        |p: Seq<char>| bs[origins_of(bs).index_of(p)].count,
    )
}

spec fn starts_of(bs: Seq<Bucket>) -> Map<Seq<char>, Instant> {
    Map::new(
        |p: Seq<char>| origins_of(bs).contains(p),
        |p: Seq<char>| bs[origins_of(bs).index_of(p)].window_start,
    )
}

proof fn lemma_index_of(bs: Seq<Bucket>, i: int)
    requires
        origins_of(bs).no_duplicates(),
        0 <= i < bs.len(),
    ensures
        origins_of(bs).index_of(origins_of(bs)[i]) == i,
{
    let p = origins_of(bs)[i];
    assert(origins_of(bs).contains(p));
    let k = origins_of(bs).index_of(p);
    assert(0 <= k < origins_of(bs).len() && origins_of(bs)[k] == p);
}

proof fn lemma_counts_len(bs: Seq<Bucket>)
    requires
        origins_of(bs).no_duplicates(),
    ensures
        counts_of(bs).len() == bs.len(),
        counts_of(bs).dom().finite(),
{
    origins_of(bs).unique_seq_to_set();
    assert(counts_of(bs).dom() =~= origins_of(bs).to_set());
}

proof fn lemma_push_bucket(bs: Seq<Bucket>, b: Bucket)
    requires
        origins_of(bs).no_duplicates(),
        !origins_of(bs).contains(b.origin@),
    ensures
        origins_of(bs.push(b)).no_duplicates(),
        counts_of(bs.push(b)) == counts_of(bs).insert(b.origin@, b.count),
        starts_of(bs.push(b)) == starts_of(bs).insert(b.origin@, b.window_start),
{
    let nb = bs.push(b);
    let want = counts_of(bs).insert(b.origin@, b.count);
    let want_s = starts_of(bs).insert(b.origin@, b.window_start);
    assert(origins_of(nb) =~= origins_of(bs).push(b.origin@));
    lemma_index_of(nb, bs.len() as int);
    assert forall|p: Seq<char>| #[trigger] counts_of(nb).contains_key(p) <==> want.contains_key(p) by {
        if p == b.origin@ {
            assert(origins_of(nb)[bs.len() as int] == p);
        } else if origins_of(bs).contains(p) {
            let k = origins_of(bs).index_of(p);
            assert(origins_of(nb)[k] == p);
        }
    }
    assert forall|p: Seq<char>| #[trigger] counts_of(nb).contains_key(p) implies counts_of(nb)[p]
        == want[p] by {
        if p != b.origin@ {
            let k = origins_of(nb).index_of(p);
            assert(0 <= k < origins_of(nb).len() && origins_of(nb)[k] == p);
            assert(origins_of(bs)[k] == p);
            lemma_index_of(bs, k);
        }
    }
    assert(counts_of(nb) =~= want);
    assert forall|p: Seq<char>| #[trigger] starts_of(nb).contains_key(p) implies starts_of(nb)[p]
        == want_s[p] by {
        if p != b.origin@ {
            let k = origins_of(nb).index_of(p);
            assert(0 <= k < origins_of(nb).len() && origins_of(nb)[k] == p);
            assert(origins_of(bs)[k] == p);
            lemma_index_of(bs, k);
        }
    }
    assert(starts_of(nb) =~= want_s);
}

proof fn lemma_set_bucket(bs: Seq<Bucket>, i: int, b: Bucket)
    requires
        origins_of(bs).no_duplicates(),
        0 <= i < bs.len(),
        bs[i].origin@ == b.origin@,
    ensures
        origins_of(bs.update(i, b)).no_duplicates(),
        counts_of(bs.update(i, b)) == counts_of(bs).insert(b.origin@, b.count),
        starts_of(bs.update(i, b)) == starts_of(bs).insert(b.origin@, b.window_start),
{
    let nb = bs.update(i, b);
    let want = counts_of(bs).insert(b.origin@, b.count);
    let want_s = starts_of(bs).insert(b.origin@, b.window_start);
    assert(origins_of(nb) =~= origins_of(bs));
    lemma_index_of(bs, i);
    assert forall|p: Seq<char>| #[trigger] counts_of(nb).contains_key(p) <==> want.contains_key(p) by {
        if p == b.origin@ {
            assert(origins_of(bs)[i] == p);
        }
    }
    assert forall|p: Seq<char>| #[trigger] counts_of(nb).contains_key(p) implies counts_of(nb)[p]
        == want[p] by {
        let k = origins_of(nb).index_of(p);
        assert(0 <= k < origins_of(nb).len() && origins_of(nb)[k] == p);
        if p != b.origin@ {
            assert(k != i);
        }
    }
    assert(counts_of(nb) =~= want);
    assert forall|p: Seq<char>| #[trigger] starts_of(nb).contains_key(p) implies starts_of(nb)[p]
        == want_s[p] by {
        let k = origins_of(nb).index_of(p);
        assert(0 <= k < origins_of(nb).len() && origins_of(nb)[k] == p);
        if p != b.origin@ {
            assert(k != i);
        }
    }
    assert(starts_of(nb) =~= want_s);
}

proof fn lemma_remove_bucket(bs: Seq<Bucket>, i: int)
    requires
        origins_of(bs).no_duplicates(),
        0 <= i < bs.len(),
    ensures
        origins_of(bs.remove(i)).no_duplicates(),
        counts_of(bs.remove(i)) == counts_of(bs).remove(bs[i].origin@),
        starts_of(bs.remove(i)) == starts_of(bs).remove(bs[i].origin@),
{
    let nb = bs.remove(i);
    let gone = bs[i].origin@;
    let want = counts_of(bs).remove(gone);
    let want_s = starts_of(bs).remove(gone);
    assert(origins_of(nb) =~= origins_of(bs).remove(i));
    assert forall|a: int, b: int|
        0 <= a < origins_of(nb).len() && 0 <= b < origins_of(nb).len() && a != b implies
            origins_of(nb)[a] != origins_of(nb)[b] by {
        let a0 = if a < i { a } else { a + 1 };
        let b0 = if b < i { b } else { b + 1 };
        assert(origins_of(nb)[a] == origins_of(bs)[a0]);
        assert(origins_of(nb)[b] == origins_of(bs)[b0]);
    }
    assert forall|p: Seq<char>| #[trigger] counts_of(nb).contains_key(p) <==> want.contains_key(p) by {
        if origins_of(nb).contains(p) {
            let k = origins_of(nb).index_of(p);
            assert(0 <= k < origins_of(nb).len() && origins_of(nb)[k] == p);
            let k0 = if k < i { k } else { k + 1 };
            assert(origins_of(bs)[k0] == p);
            assert(k0 != i);
            assert(origins_of(bs)[k0] != origins_of(bs)[i]);
            assert(origins_of(bs).contains(p));
        }
        if want.contains_key(p) {
            let k = origins_of(bs).index_of(p);
            assert(0 <= k < origins_of(bs).len() && origins_of(bs)[k] == p);
            assert(k != i);
            let k1 = if k < i { k } else { k - 1 };
            assert(origins_of(nb)[k1] == p);
        }
    }
    assert forall|p: Seq<char>| #[trigger] counts_of(nb).contains_key(p) implies counts_of(nb)[p]
        == want[p] by {
        let k = origins_of(nb).index_of(p);
        assert(0 <= k < origins_of(nb).len() && origins_of(nb)[k] == p);
        let k0 = if k < i { k } else { k + 1 };
        assert(origins_of(bs)[k0] == p);
        lemma_index_of(bs, k0);
    }
    assert(counts_of(nb) =~= want);
    assert forall|p: Seq<char>| #[trigger] starts_of(nb).contains_key(p) implies starts_of(nb)[p]
        == want_s[p] by {
        let k = origins_of(nb).index_of(p);
        assert(0 <= k < origins_of(nb).len() && origins_of(nb)[k] == p);
        let k0 = if k < i { k } else { k + 1 };
        assert(origins_of(bs)[k0] == p);
        lemma_index_of(bs, k0);
    }
    assert(starts_of(nb) =~= want_s);
}

fn find_bucket(bs: &Vec<Bucket>, origin: &str) -> (r: Option<usize>)
    ensures
        r matches Some(i) ==> i < bs@.len() && origins_of(bs@)[i as int] == origin@,
        r is None ==> !origins_of(bs@).contains(origin@),
{
    let n = bs.len();
    let mut i: usize = 0;
    while i < n
        invariant
            n == bs@.len(),
            i <= n,
            forall|j: int| 0 <= j < i ==> origins_of(bs@)[j] != origin@,
        decreases n - i,
    {
        if str_eq(bs[i].origin.as_str(), origin) {
            return Some(i);
        }
        i = i + 1;
    }
    None
}

fn copy_bucket(b: &Bucket) -> (r: Bucket)
    ensures
        r.origin@ == b.origin@,
        r.count == b.count,
        r.window_start == b.window_start,
{
    Bucket { origin: b.origin.clone(), window_start: b.window_start, count: b.count }
}

/// The larger of the table bound and one: a table bounded by zero still
/// takes the origin being served.
pub open spec fn table_bound(max_keys: usize) -> nat {
    if max_keys == 0 {
        1
    } else {
        max_keys as nat
    }
}

/// What one request does to the per-origin counts and the refusal counter,
/// once the table has room for the origin, given whether the origin's window
/// has run out: the answer, the new counts, the new refusal count. The
/// origin's count (zero when it has no bucket or its window ran out) is
/// compared with the budget: under it the request is allowed and counted, at
/// it the request is refused and the refusal counted.
pub open spec fn allow_step(
    counts: Map<Seq<char>, u32>,
    refused: u64,
    per_window: u32,
    origin: Seq<char>,
    window_over: bool,
) -> (bool, Map<Seq<char>, u32>, u64) {
    let c: u32 = if window_over || !counts.contains_key(origin) {
        0
    } else {
        counts[origin]
    };
    if c >= per_window {
        (false, counts.insert(origin, c), bumped(refused))
    } else {
        (true, counts.insert(origin, (c + 1) as u32), refused)
    }
}

/// How the table may make room before a request: a known origin, or a table
/// with room, changes nothing; otherwise some buckets (the expired ones, then
/// if need be the oldest) may go, never the requesting origin's.
pub open spec fn made_room(
    before: Map<Seq<char>, u32>,
    after: Map<Seq<char>, u32>,
    origin: Seq<char>,
    max_keys: usize,
) -> bool {
    &&& forall|k: Seq<char>| #[trigger] after.contains_key(k) ==> before.contains_key(k) && after[k] == before[k]
    &&& (before.contains_key(origin) || before.len() < max_keys) ==> after == before
    &&& after.contains_key(origin) == before.contains_key(origin)
}

/// Where each origin's window opened after a request at `now`: a fresh
/// window opens at `now` for an origin without a bucket or whose window has
/// run out; every other start stays.
pub open spec fn restart_step(
    starts: Map<Seq<char>, Instant>,
    origin: Seq<char>,
    window_over: bool,
    now: Instant,
) -> Map<Seq<char>, Instant> {
    if window_over || !starts.contains_key(origin) {
        starts.insert(origin, now)
    } else {
        starts
    }
}

/// One bucket of the table: the origin, its count in the window, and where
/// the window opened.
pub type LimiterRow = (Seq<char>, u32, Instant);

spec fn rows_of(bs: Seq<Bucket>) -> Seq<LimiterRow> {
    bs.map_values(|b: Bucket| (b.origin@, b.count, b.window_start))
}

/// The rows whose window is still open, `ages[i]` being how long ago row
/// `i`'s window opened, with their ages; table order is kept.
pub open spec fn still_open(t: Seq<LimiterRow>, ages: Seq<u128>, window: u128) -> (Seq<LimiterRow>, Seq<u128>)
    decreases t.len(),
{
    if t.len() == 0 {
        (Seq::empty(), Seq::empty())
    } else {
        let (a, b) = still_open(t.drop_last(), ages.drop_last(), window);
        if ages.last() < window {
            (a.push(t.last()), b.push(ages.last()))
        } else {
            (a, b)
        }
    }
}

/// The index of the row whose window opened longest ago (the first such in
/// table order).
pub open spec fn first_oldest(ages: Seq<u128>) -> int
    decreases ages.len(),
{
    if ages.len() <= 1 {
        0
    } else {
        let j = first_oldest(ages.drop_last());
        if ages.last() > ages[j] {
            ages.len() - 1
        } else {
            j
        }
    }
}

/// The table once room is made for a request from `origin`: a known origin,
/// or a table below its bound, changes nothing; otherwise the rows whose
/// window ran out go first, and if the table is still full the oldest goes.
pub open spec fn rows_with_room(
    t: Seq<LimiterRow>,
    ages: Seq<u128>,
    origin: Seq<char>,
    window: u128,
    max_keys: usize,
) -> (Seq<LimiterRow>, Seq<u128>) {
    if !t.map_values(|r: LimiterRow| r.0).contains(origin) && t.len() >= max_keys {
        let (a, b) = still_open(t, ages, window);
        if a.len() >= max_keys && a.len() > 0 {
            let j = first_oldest(b);
            (a.remove(j), b.remove(j))
        } else {
            (a, b)
        }
    } else {
        (t, ages)
    }
}

/// One request from `origin` at `now` against the table, given how long ago
/// each row's window opened: room is made (see `rows_with_room`); the
/// origin's window has run out when its age reaches the window (a new origin
/// opens one at `now`, aged zero), and then restarts at `now` with a count of
/// zero; a count under the budget is allowed and counted, one at it is
/// refused and the refusal counted. Gives the answer, the table and the
/// refusal counter.
pub open spec fn limiter_step(
    t: Seq<LimiterRow>,
    ages: Seq<u128>,
    origin: Seq<char>,
    now: Instant,
    per_window: u32,
    window: u128,
    max_keys: usize,
    refused: u64,
) -> (bool, Seq<LimiterRow>, u64) {
    let (t2, e2) = rows_with_room(t, ages, origin, window, max_keys);
    let keys = t2.map_values(|r: LimiterRow| r.0);
    let found = keys.contains(origin);
    let i = keys.index_of(origin);
    let since: u128 = if found { e2[i] } else { 0 };
    let count: u32 = if found { t2[i].1 } else { 0 };
    let start = if found { t2[i].2 } else { now };
    let over = since >= window;
    let c: u32 = if over { 0 } else { count };
    let st = if over { now } else { start };
    let ok = c < per_window;
    let row = (origin, if ok { (c + 1) as u32 } else { c }, st);
    let t3 = if found { t2.update(i, row) } else { t2.push(row) };
    (ok, t3, if ok { refused } else { bumped(refused) })
}

/// How long ago each row's window opened, as of `now`.
pub open spec fn ages_at(t: Seq<LimiterRow>, now: Instant) -> Seq<u128> {
    t.map_values(|r: LimiterRow| elapsed_nanos(now, r.2))
}

/// Budgets are per origin: a request from one origin never raises another
/// origin's count, and an origin that is still in the table afterwards kept
/// the count it had.
pub proof fn lemma_budgets_per_origin(
    before: Map<Seq<char>, u32>,
    kept: Map<Seq<char>, u32>,
    refused: u64,
    per_window: u32,
    origin: Seq<char>,
    max_keys: usize,
    window_over: bool,
    other: Seq<char>,
)
    requires
        made_room(before, kept, origin, max_keys),
        other != origin,
    ensures
        ({
            let after = allow_step(kept, refused, per_window, origin, window_over).1;
            after.contains_key(other) ==> before.contains_key(other) && after[other] == before[other]
        }),
{
    let after = allow_step(kept, refused, per_window, origin, window_over).1;
    if after.contains_key(other) {
        assert(kept.contains_key(other));
    }
}

/// An origin that has spent its budget in its window is refused, and the
/// refusal is counted; a known origin is never evicted to make room.
pub proof fn lemma_spent_budget_is_refused(
    before: Map<Seq<char>, u32>,
    kept: Map<Seq<char>, u32>,
    refused: u64,
    per_window: u32,
    origin: Seq<char>,
    max_keys: usize,
)
    requires
        made_room(before, kept, origin, max_keys),
        before.contains_key(origin),
        before[origin] >= per_window,
    ensures
        kept == before,
        allow_step(kept, refused, per_window, origin, false) == (false, before, bumped(refused)),
{
    assert(before.insert(origin, before[origin]) =~= before);
}

/// Per-origin budgets: each origin may ask `per_window` questions per window.
pub struct RateLimiter {
    buckets: Vec<Bucket>,
    per_window: u32,
    window_nanos: u128,
    max_keys: usize,
    refused: u64,
}

impl RateLimiter {
    #[verifier::type_invariant]
    spec fn well_formed(self) -> bool {
        &&& origins_of(self.buckets@).no_duplicates()
        &&& self.buckets@.len() <= table_bound(self.max_keys)
    }

    /// How many requests each origin in the table has had allowed in its
    /// window.
    pub closed spec fn counts(self) -> Map<Seq<char>, u32> {
        counts_of(self.buckets@)
    }

    /// The table, in its order.
    pub closed spec fn table(self) -> Seq<LimiterRow> {
        rows_of(self.buckets@)
    }

    /// Where each origin in the table opened its current window.
    pub closed spec fn starts(self) -> Map<Seq<char>, Instant> {
        starts_of(self.buckets@)
    }

    /// The budget per window.
    pub closed spec fn budget(self) -> u32 {
        self.per_window
    }

    /// The bound on the table of origins.
    pub closed spec fn max_origins(self) -> usize {
        self.max_keys
    }

    /// The window's length in nanoseconds.
    pub closed spec fn window_len(self) -> u128 {
        self.window_nanos
    }

    /// How many requests were refused (wrapping at `u64::MAX`).
    pub closed spec fn refusals(self) -> u64 {
        self.refused
    }

    /// A limiter allowing `per_window` requests per origin per `window`,
    /// tracking at most `max_keys` origins.
    pub fn new(per_window: u32, window: Duration, max_keys: usize) -> (r: Self)
        ensures
            r.counts() == Map::<Seq<char>, u32>::empty(),
            r.starts() == Map::<Seq<char>, Instant>::empty(),
            r.budget() == per_window,
            r.max_origins() == max_keys,
            r.window_len() == nanos_of(window),
            r.refusals() == 0,
    {
        let buckets: Vec<Bucket> = Vec::new();
        assert(counts_of(buckets@) =~= Map::<Seq<char>, u32>::empty());
        assert(starts_of(buckets@) =~= Map::<Seq<char>, Instant>::empty());
        RateLimiter {
            buckets,
            per_window,
            window_nanos: duration_nanos(window),
            max_keys,
            refused: 0,
        }
    }

    /// How many requests have been refused.
    pub fn refused(&self) -> (r: u64)
        ensures
            r == self.refusals(),
    {
        self.refused
    }

    /// The number of origins the table holds.
    pub fn origins(&self) -> (r: usize)
        ensures
            r == self.counts().len(),
            r <= table_bound(self.max_origins()),
    {
        proof {
            use_type_invariant(self);
            lemma_counts_len(self.buckets@);
        }
        self.buckets.len()
    }

    /// How many requests `origin` has had allowed in its window, when the
    /// table holds it.
    pub fn count_of(&self, origin: &str) -> (r: Option<u32>)
        ensures
            r == (if self.counts().contains_key(origin@) {
                Some(self.counts()[origin@])
            } else {
                None
            }),
    {
        proof {
            use_type_invariant(self);
        }
        match find_bucket(&self.buckets, origin) {
            Some(i) => {
                proof {
                    lemma_index_of(self.buckets@, i as int);
                }
                Some(self.buckets[i].count)
            },
            None => None,
        }
    }

    /// Drops the buckets whose window has run out, `ages[i]` being how long
    /// ago bucket `i`'s window opened; keeps the others' ages beside them.
    fn drop_expired(bs: Vec<Bucket>, ages: Vec<u128>, window_nanos: u128) -> (r: (Vec<Bucket>, Vec<u128>))
        requires
            origins_of(bs@).no_duplicates(),
            ages@.len() == bs@.len(),
        ensures
            origins_of(r.0@).no_duplicates(),
            counts_of(r.0@).submap_of(counts_of(bs@)),
            starts_of(r.0@).submap_of(starts_of(bs@)),
            r.0@.len() <= bs@.len(),
            r.1@.len() == r.0@.len(),
            (rows_of(r.0@), r.1@) == still_open(rows_of(bs@), ages@, window_nanos),
    {
        let ghost all = bs@;
        let ghost all_ages = ages@;
        let n = bs.len();
        let mut kept: Vec<Bucket> = Vec::new();
        let mut kept_ages: Vec<u128> = Vec::new();
        let ghost mut from: Seq<int> = Seq::empty();
        let mut i: usize = 0;
        proof {
            assert(counts_of(kept@) =~= Map::<Seq<char>, u32>::empty());
            assert(starts_of(kept@) =~= Map::<Seq<char>, Instant>::empty());
            assert(rows_of(all).take(0) =~= Seq::<LimiterRow>::empty());
            assert(rows_of(kept@) =~= Seq::<LimiterRow>::empty());
        }
        while i < n
            invariant
                n == all.len(),
                bs@ == all,
                ages@ == all_ages,
                all_ages.len() == n,
                origins_of(all).no_duplicates(),
                i <= n,
                kept@.len() <= i,
                kept_ages@.len() == kept@.len(),
                from.len() == kept@.len(),
                origins_of(kept@).no_duplicates(),
                forall|j: int|
                    0 <= j < kept@.len() ==> 0 <= #[trigger] from[j] < i && origins_of(kept@)[j]
                        == origins_of(all)[from[j]],
                counts_of(kept@).submap_of(counts_of(all)),
                starts_of(kept@).submap_of(starts_of(all)),
                (rows_of(kept@), kept_ages@) == still_open(rows_of(all).take(i as int), all_ages.take(i as int), window_nanos),
            decreases n - i,
        {
            proof {
                assert(rows_of(all).take(i + 1).drop_last() =~= rows_of(all).take(i as int));
                assert(all_ages.take(i + 1).drop_last() =~= all_ages.take(i as int));
                assert(rows_of(all).take(i + 1).last() == rows_of(all)[i as int]);
                assert(all_ages.take(i + 1).last() == all_ages[i as int]);
            }
            let b = &bs[i];
            if ages[i] < window_nanos {
                let c = copy_bucket(b);
                proof {
                    assert(!origins_of(kept@).contains(c.origin@)) by {
                        if origins_of(kept@).contains(c.origin@) {
                            let j = origins_of(kept@).index_of(c.origin@);
                            assert(0 <= j < kept@.len() && origins_of(kept@)[j] == c.origin@);
                            assert(origins_of(all)[from[j]] == origins_of(all)[i as int]);
                        }
                    }
                    lemma_push_bucket(kept@, c);
                    lemma_index_of(all, i as int);
                    assert(origins_of(all)[i as int] == c.origin@);
                    assert(counts_of(all).contains_key(c.origin@));
                    assert(counts_of(all)[c.origin@] == c.count);
                    assert(starts_of(all)[c.origin@] == c.window_start);
                    let nk = kept@.push(c);
                    let nf = from.push(i as int);
                    assert forall|j: int| 0 <= j < nk.len() implies 0 <= #[trigger] nf[j] < i + 1
                        && origins_of(nk)[j] == origins_of(all)[nf[j]] by {
                        if j < kept@.len() {
                            assert(origins_of(nk)[j] == origins_of(kept@)[j]);
                        }
                    }
                    assert(rows_of(nk) =~= rows_of(kept@).push(rows_of(all)[i as int]));
                    from = nf;
                }
                kept.push(c);
                kept_ages.push(ages[i]);
            }
            i = i + 1;
        }
        proof {
            assert(rows_of(all).take(n as int) =~= rows_of(all));
            assert(all_ages.take(n as int) =~= all_ages);
        }
        (kept, kept_ages)
    }

    /// The index of the bucket whose window opened longest ago (the first
    /// such in table order).
    fn oldest(ages: &Vec<u128>) -> (r: Option<usize>)
        ensures
            r matches Some(i) ==> i < ages@.len() && i == first_oldest(ages@),
            r is None <==> ages@.len() == 0,
    {
        let n = ages.len();
        if n == 0 {
            return None;
        }
        let mut best: usize = 0;
        let mut i: usize = 1;
        assert(ages@.take(1).len() == 1);
        while i < n
            invariant
                n == ages@.len(),
                1 <= i <= n,
                best < i,
                best == first_oldest(ages@.take(i as int)),
            decreases n - i,
        {
            proof {
                let s = ages@.take(i + 1);
                assert(s.drop_last() =~= ages@.take(i as int));
                assert(s.last() == ages@[i as int]);
                assert(s[best as int] == ages@[best as int]);
            }
            if ages[i] > ages[best] {
                best = i;
            }
            i = i + 1;
        }
        assert(ages@.take(n as int) =~= ages@);
        Some(best)
    }

    /// Decides one request from `origin` at `now`, given how many
    /// nanoseconds ago each bucket's window opened (`elapsed`, in table
    /// order): allowed while the origin has budget left in its window,
    /// refused (and counted) once it has spent it. A new origin arriving at a
    /// full table first reclaims the buckets whose window ran out and, if the
    /// table is still full, evicts the one whose window opened longest ago, so
    /// the table stays bounded and a flood of spoofed origins cannot lock the
    /// real ones out (see `limiter_step`).
    #[verifier::spinoff_prover]
    #[verifier::rlimit(40)]
    pub fn allow_after(&mut self, origin: &str, now: Instant, elapsed: &[u128]) -> (r: bool)
        requires
            elapsed@.len() == old(self).table().len(),
        ensures
            (r, final(self).table(), final(self).refusals()) == limiter_step(
                old(self).table(),
                elapsed@,
                origin@,
                now,
                old(self).budget(),
                old(self).window_len(),
                old(self).max_origins(),
                old(self).refusals(),
            ),
            exists|kept: Map<Seq<char>, u32>, window_over: bool|
                #![trigger made_room(old(self).counts(), kept, origin@, old(self).max_origins()), allow_step(kept, old(self).refusals(), old(self).budget(), origin@, window_over)]
                made_room(old(self).counts(), kept, origin@, old(self).max_origins())
                    && (r, final(self).counts(), final(self).refusals()) == allow_step(
                    kept,
                    old(self).refusals(),
                    old(self).budget(),
                    origin@,
                    window_over,
                ) && final(self).starts() == restart_step(
                    old(self).starts().restrict(kept.dom()),
                    origin@,
                    window_over,
                    now,
                ),
            final(self).counts().len() <= table_bound(final(self).max_origins()),
            final(self).budget() == old(self).budget(),
            final(self).max_origins() == old(self).max_origins(),
            final(self).window_len() == old(self).window_len(),
    {
        proof {
            use_type_invariant(&*self);
            lemma_counts_len(self.buckets@);
        }
        let ghost before = counts_of(self.buckets@);
        let ghost before_s = starts_of(self.buckets@);
        let ghost old_refused = self.refused;
        let ghost t0 = rows_of(self.buckets@);
        let ghost e0 = elapsed@;
        let mut bs: Vec<Bucket> = Vec::new();
        std::mem::swap(&mut bs, &mut self.buckets);
        let mut ages: Vec<u128> = Vec::new();
        let mut q: usize = 0;
        while q < elapsed.len()
            invariant
                q <= elapsed@.len(),
                ages@ == elapsed@.take(q as int),
            decreases elapsed.len() - q,
        {
            ages.push(elapsed[q]);
            q = q + 1;
            assert(ages@ =~= elapsed@.take(q as int));
        }
        assert(ages@ =~= e0);
        assert(t0.map_values(|r: LimiterRow| r.0) =~= origins_of(bs@));
        let found = find_bucket(&bs, origin);
        if found.is_none() && bs.len() >= self.max_keys {
            let (b2, a2) = RateLimiter::drop_expired(bs, ages, self.window_nanos);
            bs = b2;
            ages = a2;
            assert(counts_of(bs@).submap_of(before));
            assert(starts_of(bs@).submap_of(before_s));
            if bs.len() >= self.max_keys {
                match RateLimiter::oldest(&ages) {
                    Some(i) => {
                        let ghost mid_rows = rows_of(bs@);
                        let ghost mid_ages = ages@;
                        let ghost mid = counts_of(bs@);
                        let ghost mid_s = starts_of(bs@);
                        proof {
                            lemma_remove_bucket(bs@, i as int);
                        }
                        bs.remove(i);
                        ages.remove(i);
                        proof {
                            assert(rows_of(bs@) =~= mid_rows.remove(i as int));
                            assert(counts_of(bs@).submap_of(mid));
                            assert(mid.submap_of(before));
                            assert forall|k: Seq<char>| #[trigger] counts_of(bs@).contains_key(k) implies
                                before.contains_key(k) && counts_of(bs@)[k] == before[k] by {
                                assert(mid.contains_key(k));
                                assert(mid[k] == before[k]);
                            }
                            assert(starts_of(bs@).submap_of(mid_s));
                            assert(mid_s.submap_of(before_s));
                            assert forall|k: Seq<char>| #[trigger] starts_of(bs@).contains_key(k) implies
                                before_s.contains_key(k) && starts_of(bs@)[k] == before_s[k] by {
                                assert(mid_s.dom().contains(k));
                                assert(before_s.dom().contains(k));
                                assert(mid_s[k] == before_s[k]);
                            }
                        }
                    },
                    None => {},
                }
            }
        }
        let ghost kept = counts_of(bs@);
        let ghost kept_s = starts_of(bs@);
        let ghost t2 = rows_of(bs@);
        let ghost e2 = ages@;
        proof {
            assert((t2, e2) == rows_with_room(t0, e0, origin@, self.window_nanos, self.max_keys));
            assert(t2.map_values(|r: LimiterRow| r.0) =~= origins_of(bs@));
            assert(e2.len() == t2.len());
            lemma_counts_len(bs@);
            assert(kept.submap_of(before));
            assert(kept_s.submap_of(before_s));
            assert(kept_s =~= before_s.restrict(kept.dom()));
            if found is None {
                assert(!before.contains_key(origin@));
                assert(!kept.contains_key(origin@));
            }
            if before.contains_key(origin@) || before.len() < self.max_keys {
                assert(kept =~= before);
            }
            if before.contains_key(origin@) {
                assert(found is Some);
            }
        }
        let found2 = find_bucket(&bs, origin);
        let since: u128 = match found2 {
            Some(i) => {
                proof {
                    lemma_index_of(bs@, i as int);
                }
                ages[i]
            },
            None => 0,
        };
        let idx = match found2 {
            Some(i) => i,
            None => {
                let b = Bucket { origin: String::from_str(origin), window_start: now, count: 0 };
                proof {
                    lemma_push_bucket(bs@, b);
                }
                bs.push(b);
                bs.len() - 1
            },
        };
        proof {
            lemma_index_of(bs@, idx as int);
        }
        let window_over = since >= self.window_nanos;
        let mut count = bs[idx].count;
        let mut window_start = bs[idx].window_start;
        if window_over {
            count = 0;
            window_start = now;
        }
        let allowed = count < self.per_window;
        if allowed {
            count = count + 1;
        }
        let b = Bucket { origin: String::from_str(origin), window_start, count };
        proof {
            lemma_set_bucket(bs@, idx as int, b);
            assert(counts_of(bs@.update(idx as int, b)) =~= allow_step(
                kept, self.refused, self.per_window, origin@, window_over).1);
            assert(starts_of(bs@.update(idx as int, b)) =~= restart_step(
                kept_s, origin@, window_over, now));
        }
        bs.set(idx, b);
        proof {
            lemma_counts_len(bs@);
        }
        self.buckets = bs;
        if !allowed {
            self.refused = self.refused.wrapping_add(1);
        }
        proof {
            assert(made_room(before, kept, origin@, self.max_keys));
            assert((allowed, self.counts(), self.refused) == allow_step(
                kept, old_refused, self.per_window, origin@, window_over));
            assert(before == old(self).counts());
            assert(made_room(old(self).counts(), kept, origin@, old(self).max_origins()));
            assert((allowed, self.counts(), self.refusals()) == allow_step(
                kept, old(self).refusals(), old(self).budget(), origin@, window_over));
            assert(self.starts() == restart_step(
                old(self).starts().restrict(kept.dom()), origin@, window_over, now));
            let (ok, t3, rf) = limiter_step(old(self).table(), elapsed@, origin@, now, old(self).budget(),
                old(self).window_len(), old(self).max_origins(), old(self).refusals());
            assert(ok == allowed);
            assert(self.table() =~= t3);
            assert(rf == self.refused);
        }
        allowed
    }

    /// Decides one request from `origin` at `now`: reads how long ago each
    /// bucket's window opened, as of `now`, and takes the step `allow_after`
    /// states with those ages.
    pub fn allow_at(&mut self, origin: &str, now: Instant) -> (r: bool)
        ensures
            (r, final(self).table(), final(self).refusals()) == limiter_step(
                    old(self).table(),
                    ages_at(old(self).table(), now),
                    origin@,
                    now,
                    old(self).budget(),
                    old(self).window_len(),
                    old(self).max_origins(),
                    old(self).refusals(),
                ),
            exists|kept: Map<Seq<char>, u32>, window_over: bool|
                #![trigger made_room(old(self).counts(), kept, origin@, old(self).max_origins()), allow_step(kept, old(self).refusals(), old(self).budget(), origin@, window_over)]
                made_room(old(self).counts(), kept, origin@, old(self).max_origins())
                    && (r, final(self).counts(), final(self).refusals()) == allow_step(
                    kept,
                    old(self).refusals(),
                    old(self).budget(),
                    origin@,
                    window_over,
                ) && final(self).starts() == restart_step(
                    old(self).starts().restrict(kept.dom()),
                    origin@,
                    window_over,
                    now,
                ),
            final(self).counts().len() <= table_bound(final(self).max_origins()),
            final(self).budget() == old(self).budget(),
            final(self).max_origins() == old(self).max_origins(),
            final(self).window_len() == old(self).window_len(),
    {
        let n = self.buckets.len();
        let ghost want = ages_at(rows_of(self.buckets@), now);
        let mut ages: Vec<u128> = Vec::new();
        let mut i: usize = 0;
        while i < n
            invariant
                n == self.buckets@.len(),
                want == ages_at(rows_of(self.buckets@), now),
                i <= n,
                ages@ == want.take(i as int),
            decreases n - i,
        {
            let a = nanos_since(now, self.buckets[i].window_start);
            proof {
                assert(rows_of(self.buckets@)[i as int].2 == self.buckets@[i as int].window_start);
                assert(a == want[i as int]);
            }
            ages.push(a);
            i = i + 1;
            assert(ages@ =~= want.take(i as int));
        }
        assert(ages@ =~= want);
        self.allow_after(origin, now, ages.as_slice())
    }

    /// Decides one request from `origin` arriving now (see `allow_at`).
    pub fn allow(&mut self, origin: &str) -> (r: bool)
        ensures
            exists|now: Instant|
                (r, final(self).table(), final(self).refusals()) == #[trigger] limiter_step(
                    old(self).table(),
                    ages_at(old(self).table(), now),
                    origin@,
                    now,
                    old(self).budget(),
                    old(self).window_len(),
                    old(self).max_origins(),
                    old(self).refusals(),
                ),
            exists|kept: Map<Seq<char>, u32>, window_over: bool, now: Instant|
                #![trigger made_room(old(self).counts(), kept, origin@, old(self).max_origins()), allow_step(kept, old(self).refusals(), old(self).budget(), origin@, window_over), restart_step(old(self).starts().restrict(kept.dom()), origin@, window_over, now)]
                made_room(old(self).counts(), kept, origin@, old(self).max_origins())
                    && (r, final(self).counts(), final(self).refusals()) == allow_step(
                    kept,
                    old(self).refusals(),
                    old(self).budget(),
                    origin@,
                    window_over,
                ) && final(self).starts() == restart_step(
                    old(self).starts().restrict(kept.dom()),
                    origin@,
                    window_over,
                    now,
                ),
            final(self).counts().len() <= table_bound(final(self).max_origins()),
            final(self).budget() == old(self).budget(),
            final(self).max_origins() == old(self).max_origins(),
            final(self).window_len() == old(self).window_len(),
    {
        let now = instant_now();
        self.allow_at(origin, now)
    }
}

} // verus!
