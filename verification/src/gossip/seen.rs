//! Duplicate suppression for gossip messages: an id seen within its lifetime
//! is reported as seen; the set reclaims expired ids and stays bounded.
use vstd::prelude::*;
use std::time::{Duration, Instant};
use crate::text::str_eq;
use crate::clock::{instant_after, instant_before, instant_lt, instant_now, instant_plus};

verus! {

struct SeenEntry {
    id: String,
    expires: Instant,
}

/// One record of the set: an id and when it stops counting as seen.
pub type SeenRecord = (Seq<char>, Instant);

spec fn records_of(s: Seq<SeenEntry>) -> Seq<SeenRecord> {
    s.map_values(|e: SeenEntry| (e.id@, e.expires))
}

/// The live ids of a run of records kept in insertion order, each with the
/// expiry of its latest record.
pub open spec fn live_of(r: Seq<SeenRecord>) -> Map<Seq<char>, Instant>
    decreases r.len(),
{
    if r.len() == 0 {
        Map::empty()
    } else {
        live_of(r.drop_last()).insert(r.last().0, r.last().1)
    }
}

/// The index of the latest record of `id`, if any.
pub open spec fn last_of(r: Seq<SeenRecord>, id: Seq<char>) -> Option<int>
    decreases r.len(),
{
    if r.len() == 0 {
        None
    } else if r.last().0 == id {
        Some(r.len() - 1)
    } else {
        last_of(r.drop_last(), id)
    }
}

/// How many of the oldest records have run out: the length of the leading
/// run of `true` in `expired`.
pub open spec fn expired_prefix(expired: Seq<bool>) -> nat
    decreases expired.len(),
{
    if expired.len() > 0 && expired[0] {
        1 + expired_prefix(expired.drop_first())
    } else {
        0
    }
}

/// How many of the oldest of `n` records go to make room for one more under
/// `cap`: enough to leave `cap - 1`, or all of them when the cap is zero.
pub open spec fn evicted_for(n: nat, cap: usize) -> nat {
    if cap == 0 {
        n
    } else if n >= cap {
        (n - cap + 1) as nat
    } else {
        0
    }
}

/// What one sighting of `id` does to the records, given the clock's answers:
/// `expired[i]` tells whether record `i` has run out by now, and `expires` is
/// now plus the lifetime (`None` when the clock cannot represent it). An id
/// whose latest record has not run out is a repeat: the answer is `true` and
/// nothing changes. Otherwise the answer is `false`; when the deadline is
/// representable, the run of expired records at the front goes, then the
/// oldest of the rest while the set is full, and the id is recorded last.
pub open spec fn seen_step(
    r: Seq<SeenRecord>,
    id: Seq<char>,
    expires: Option<Instant>,
    expired: Seq<bool>,
    cap: usize,
) -> (bool, Seq<SeenRecord>) {
    let repeat = match last_of(r, id) {
        Some(j) => !expired[j],
        None => false,
    };
    if repeat {
        (true, r)
    } else {
        match expires {
            None => (false, r),
            Some(t) => {
                let a = r.skip(expired_prefix(expired) as int);
                let b = a.skip(evicted_for(a.len(), cap) as int);
                (false, b.push((id, t)))
            },
        }
    }
}

/// Which records have run out by `now`: those whose expiry is not later.
pub open spec fn expired_at(r: Seq<SeenRecord>, now: Instant) -> Seq<bool> {
    r.map_values(|p: SeenRecord| !instant_before(now, p.1))
}

/// The bound on the records: the cap, or one when the cap is zero (the
/// record just made always stays).
pub open spec fn seen_bound(cap: usize) -> nat {
    if cap == 0 {
        1
    } else {
        cap as nat
    }
}

proof fn lemma_live_dom(r: Seq<SeenRecord>)
    ensures
        live_of(r).dom() == r.map_values(|p: SeenRecord| p.0).to_set(),
    decreases r.len(),
{
    let ids = r.map_values(|p: SeenRecord| p.0);
    if r.len() > 0 {
        let q = r.drop_last();
        let qids = q.map_values(|p: SeenRecord| p.0);
        lemma_live_dom(q);
        assert(qids =~= ids.drop_last());
        assert forall|k: Seq<char>| #[trigger] live_of(r).dom().contains(k) <==> ids.to_set().contains(k) by {
            if ids.contains(k) {
                let j = ids.index_of(k);
                if j < q.len() {
                    assert(qids[j] == k);
                    assert(qids.contains(k));
                }
            }
            if qids.contains(k) {
                let j = qids.index_of(k);
                assert(ids[j] == k);
            }
            assert(ids[r.len() - 1] == r.last().0);
        }
        assert(live_of(r).dom() =~= ids.to_set());
    } else {
        assert(live_of(r).dom() =~= ids.to_set());
    }
}

proof fn lemma_live_len(r: Seq<SeenRecord>)
    ensures
        live_of(r).dom().finite(),
        live_of(r).len() <= r.len(),
{
    lemma_live_dom(r);
    let ids = r.map_values(|p: SeenRecord| p.0);
    ids.lemma_cardinality_of_set();
    vstd::seq_lib::seq_to_set_is_finite(ids);
}

/// Dropping the oldest records keeps every other id's entry as it was.
proof fn lemma_live_skip(r: Seq<SeenRecord>, k: int)
    requires
        0 <= k <= r.len(),
    ensures
        live_of(r.skip(k)).submap_of(live_of(r)),
    decreases r.len(),
{
    if k == r.len() {
        assert(r.skip(k).len() == 0);
    } else {
        let q = r.drop_last();
        lemma_live_skip(q, k);
        assert(r.skip(k).drop_last() =~= q.skip(k));
        assert(r.skip(k).last() == r.last());
        let a = live_of(r.skip(k));
        let b = live_of(r);
        assert forall|x: Seq<char>| #[trigger] a.dom().contains(x) implies b.dom().contains(x) && a[x] == b[x] by {
            if x != r.last().0 {
                assert(live_of(q.skip(k)).dom().contains(x));
                assert(live_of(q).dom().contains(x));
            }
        }
    }
}

/// The latest record of `k` sits at `i` exactly when `last_of` says so, and
/// then `k` is live with that record's expiry; no record means not live.
proof fn lemma_last_at(r: Seq<SeenRecord>, k: Seq<char>, i: int)
    requires
        -1 <= i < r.len(),
        i >= 0 ==> r[i].0 == k,
        forall|j: int| i < j < r.len() ==> (#[trigger] r[j]).0 != k,
    ensures
        last_of(r, k) == (if i >= 0 { Some(i) } else { None::<int> }),
        i >= 0 ==> live_of(r).contains_key(k) && live_of(r)[k] == r[i].1,
        i < 0 ==> !live_of(r).contains_key(k),
    decreases r.len(),
{
    if r.len() > 0 {
        let q = r.drop_last();
        if i == r.len() - 1 {
        } else {
            assert forall|j: int| i < j < q.len() implies (#[trigger] q[j]).0 != k by {
                assert(q[j] == r[j]);
            }
            if i >= 0 {
                assert(q[i] == r[i]);
            }
            lemma_last_at(q, k, i);
            assert(r[r.len() - 1].0 != k);
        }
    }
}

proof fn lemma_expired_prefix(e: Seq<bool>, k: int)
    requires
        0 <= k <= e.len(),
        forall|j: int| 0 <= j < k ==> #[trigger] e[j],
        k == e.len() || !e[k],
    ensures
        expired_prefix(e) == k,
    decreases k,
{
    if k > 0 {
        let d = e.drop_first();
        assert forall|j: int| 0 <= j < k - 1 implies #[trigger] d[j] by {
            assert(d[j] == e[j + 1]);
        }
        if k < e.len() {
            assert(d[k - 1] == e[k]);
        }
        lemma_expired_prefix(d, k - 1);
    }
}

/// What a step does to the live ids: a repeat changes nothing; a new sighting
/// whose deadline is representable leaves `id` live until it, and every other
/// live id either gone or as it was; the live ids never outnumber the bound.
pub proof fn lemma_seen_step_live(
    r: Seq<SeenRecord>,
    id: Seq<char>,
    expires: Option<Instant>,
    expired: Seq<bool>,
    cap: usize,
)
    requires
        expired.len() == r.len(),
        r.len() <= seen_bound(cap),
    ensures
        ({
            let (seen, after) = seen_step(r, id, expires, expired, cap);
            &&& seen ==> live_of(r).contains_key(id) && after == r
            &&& !live_of(r).contains_key(id) ==> !seen
            &&& !seen && expires is None ==> after == r
            &&& !seen && expires is Some ==> {
                &&& live_of(after).contains_key(id)
                &&& live_of(after)[id] == expires->0
                &&& forall|k: Seq<char>| #[trigger] live_of(after).contains_key(k) && k != id
                    ==> live_of(r).contains_key(k) && live_of(after)[k] == live_of(r)[k]
            }
            &&& after.len() <= seen_bound(cap)
            &&& live_of(after).len() <= seen_bound(cap)
        }),
{
    let (seen, after) = seen_step(r, id, expires, expired, cap);
    match last_of(r, id) {
        Some(j) => {
            assert(0 <= j < r.len() && r[j].0 == id) by {
                lemma_last_of_sound(r, id);
            }
            lemma_last_of_sound(r, id);
            lemma_last_at(r, id, j);
        },
        None => {
            lemma_last_of_sound(r, id);
            lemma_last_at(r, id, -1);
        },
    }
    if !seen {
        if let Some(t) = expires {
            let p = expired_prefix(expired);
            lemma_expired_prefix_le(expired);
            let a = r.skip(p as int);
            let b = a.skip(evicted_for(a.len(), cap) as int);
            lemma_live_skip(r, p as int);
            lemma_live_skip(a, evicted_for(a.len(), cap) as int);
            assert(after.drop_last() =~= b);
            assert forall|k: Seq<char>| #[trigger] live_of(after).contains_key(k) && k != id implies
                live_of(r).contains_key(k) && live_of(after)[k] == live_of(r)[k] by {
                assert(live_of(b).dom().contains(k));
                assert(live_of(a).dom().contains(k));
                assert(live_of(r).dom().contains(k));
            }
        }
    }
    lemma_live_len(after);
}

proof fn lemma_last_of_sound(r: Seq<SeenRecord>, id: Seq<char>)
    ensures
        match last_of(r, id) {
            Some(j) => 0 <= j < r.len() && r[j].0 == id && forall|m: int| j < m < r.len() ==> (#[trigger] r[m]).0 != id,
            None => forall|m: int| 0 <= m < r.len() ==> (#[trigger] r[m]).0 != id,
        },
    decreases r.len(),
{
    if r.len() > 0 {
        let q = r.drop_last();
        lemma_last_of_sound(q, id);
        if r.last().0 != id {
            assert(r[r.len() - 1].0 != id);
            match last_of(q, id) {
                Some(j) => {
                    assert(r[j] == q[j]);
                    assert forall|m: int| j < m < r.len() implies (#[trigger] r[m]).0 != id by {
                        if m < q.len() {
                            assert(r[m] == q[m]);
                        }
                    }
                },
                None => {
                    assert forall|m: int| 0 <= m < r.len() implies (#[trigger] r[m]).0 != id by {
                        if m < q.len() {
                            assert(r[m] == q[m]);
                        }
                    }
                },
            }
        }
    }
}

proof fn lemma_expired_prefix_le(e: Seq<bool>)
    ensures
        expired_prefix(e) <= e.len(),
    decreases e.len(),
{
    if e.len() > 0 && e[0] {
        lemma_expired_prefix_le(e.drop_first());
    }
}

/// Remembers the gossip message ids seen recently, each for a fixed
/// lifetime, holding at most `cap` records.
pub struct SeenSet {
    entries: Vec<SeenEntry>,
    cap: usize,
    ttl: Duration,
}

impl SeenSet {
    #[verifier::type_invariant]
    spec fn bounded(self) -> bool {
        self.entries@.len() <= seen_bound(self.cap)
    }

    /// The records, oldest first.
    pub closed spec fn records(self) -> Seq<SeenRecord> {
        records_of(self.entries@)
    }

    /// Each live id with the expiry of its latest record.
    pub open spec fn live(self) -> Map<Seq<char>, Instant> {
        live_of(self.records())
    }

    /// The bound the set was made with.
    pub closed spec fn limit(self) -> usize {
        self.cap
    }

    /// How long an id stays seen.
    pub closed spec fn lifetime(self) -> Duration {
        self.ttl
    }

    /// An empty set remembering each id for `ttl`, holding at most `cap`.
    pub fn new(cap: usize, ttl: Duration) -> (r: Self)
        ensures
            r.records() == Seq::<SeenRecord>::empty(),
            r.limit() == cap,
            r.lifetime() == ttl,
    {
        let entries: Vec<SeenEntry> = Vec::new();
        assert(records_of(entries@) =~= Seq::<SeenRecord>::empty());
        SeenSet { entries, cap, ttl }
    }

    /// How many ids are live.
    pub fn len(&self) -> (r: usize)
        ensures
            r == self.live().len(),
            r <= seen_bound(self.limit()),
    {
        proof {
            use_type_invariant(self);
            lemma_live_len(self.records());
        }
        let ghost all = self.records();
        let n = self.entries.len();
        let mut count: usize = 0;
        let mut i: usize = 0;
        while i < n
            invariant
                n == self.entries@.len(),
                all == records_of(self.entries@),
                i <= n,
                count <= i,
                count == live_of(all.take(i as int)).len(),
            decreases n - i,
        {
            let ghost t = all.take(i as int);
            let ghost t1 = all.take(i + 1);
            proof {
                assert(t1.drop_last() =~= t);
                assert(t1.last() == all[i as int]);
                lemma_live_len(t);
            }
            let found = Self::last_record(&self.entries, i, self.entries[i].id.as_str());
            proof {
                assert forall|j: int| 0 <= j < i implies #[trigger] t[j] == (self.entries@[j].id@, self.entries@[j].expires) by {}
            }
            if found.is_none() {
                proof {
                    lemma_last_at(t, all[i as int].0, -1);
                }
                count = count + 1;
            } else {
                proof {
                    let j = found.unwrap() as int;
                    lemma_last_at(t, all[i as int].0, j);
                    assert(live_of(t1) =~= live_of(t).insert(all[i as int].0, all[i as int].1));
                }
            }
            i = i + 1;
        }
        assert(all.take(n as int) =~= all);
        count
    }

    /// How many records the set keeps, stale ones included: never fewer than
    /// the live ids, never more than the bound.
    pub fn len_order(&self) -> (r: usize)
        ensures
            r == self.records().len(),
            self.live().len() <= r <= seen_bound(self.limit()),
    {
        proof {
            use_type_invariant(self);
            lemma_live_len(self.records());
        }
        self.entries.len()
    }

    /// The index of the latest record of `id` among the first `upto`.
    fn last_record(es: &Vec<SeenEntry>, upto: usize, id: &str) -> (r: Option<usize>)
        requires
            upto <= es@.len(),
        ensures
            r matches Some(i) ==> i < upto && es@[i as int].id@ == id@ && forall|j: int|
                i < j < upto ==> (#[trigger] es@[j]).id@ != id@,
            r is None ==> forall|j: int| 0 <= j < upto ==> (#[trigger] es@[j]).id@ != id@,
    {
        let mut i = upto;
        while i > 0
            invariant
                i <= upto <= es@.len(),
                forall|j: int| i <= j < upto ==> (#[trigger] es@[j]).id@ != id@,
            decreases i,
        {
            if str_eq(es[i - 1].id.as_str(), id) {
                return Some(i - 1);
            }
            i = i - 1;
        }
        None
    }

    /// One sighting of `id`, given the clock's answers: `expires` is now plus
    /// the lifetime (`None` when not representable) and `expired[i]` tells
    /// whether record `i` has run out by now (see `seen_step`).
    pub fn add_and_check_after(&mut self, id: &str, expires: Option<Instant>, expired: &[bool]) -> (r: bool)
        requires
            expired@.len() == old(self).records().len(),
        ensures
            (r, final(self).records()) == seen_step(old(self).records(), id@, expires, expired@, old(self).limit()),
            final(self).limit() == old(self).limit(),
            final(self).lifetime() == old(self).lifetime(),
    {
        proof {
            use_type_invariant(&*self);
        }
        let ghost recs = records_of(self.entries@);
        let n = self.entries.len();
        match Self::last_record(&self.entries, n, id) {
            Some(i) => {
                proof {
                    assert forall|j: int| 0 <= j < n implies #[trigger] recs[j] == (self.entries@[j].id@, self.entries@[j].expires) by {}
                    lemma_last_at(recs, id@, i as int);
                }
                if !expired[i] {
                    return true;
                }
            },
            None => {
                proof {
                    assert forall|j: int| 0 <= j < n implies #[trigger] recs[j] == (self.entries@[j].id@, self.entries@[j].expires) by {}
                    lemma_last_at(recs, id@, -1);
                }
            },
        }
        let t = match expires {
            Some(t) => t,
            None => return false,
        };
        let mut k: usize = 0;
        while k < expired.len() && expired[k]
            invariant
                k <= expired@.len(),
                forall|j: int| 0 <= j < k ==> #[trigger] expired@[j],
            decreases expired.len() - k,
        {
            k = k + 1;
        }
        proof {
            lemma_expired_prefix(expired@, k as int);
        }
        let mut es: Vec<SeenEntry> = Vec::new();
        std::mem::swap(&mut es, &mut self.entries);
        let ghost all = es@;
        let mut rest = es.split_off(k);
        proof {
            assert(records_of(rest@) =~= recs.skip(k as int));
        }
        let ghost a = rest@;
        let m = rest.len();
        let drop = if self.cap == 0 {
            m
        } else if m >= self.cap {
            m - self.cap + 1
        } else {
            0
        };
        let mut kept = rest.split_off(drop);
        proof {
            assert(records_of(kept@) =~= records_of(a).skip(drop as int));
        }
        let ghost b = kept@;
        kept.push(SeenEntry { id: String::from_str(id), expires: t });
        proof {
            assert(records_of(kept@) =~= records_of(b).push((id@, t)));
        }
        self.entries = kept;
        false
    }

    /// Reports whether `id` was seen within its lifetime as of `now`, and
    /// records it when not: a record has run out when its expiry is not
    /// later than `now`, and a new record lives until `now` plus the
    /// lifetime (see `add_and_check_after`).
    pub fn add_and_check_at(&mut self, id: &str, now: Instant) -> (r: bool)
        ensures
            (r, final(self).records()) == seen_step(
                old(self).records(),
                id@,
                instant_after(now, old(self).lifetime()),
                expired_at(old(self).records(), now),
                old(self).limit(),
            ),
            r ==> old(self).live().contains_key(id@) && final(self).live() == old(self).live(),
            !old(self).live().contains_key(id@) ==> !r,
            final(self).live().len() <= seen_bound(final(self).limit()),
            final(self).limit() == old(self).limit(),
            final(self).lifetime() == old(self).lifetime(),
    {
        proof {
            use_type_invariant(&*self);
        }
        let n = self.entries.len();
        let ghost want = expired_at(records_of(self.entries@), now);
        let mut expired: Vec<bool> = Vec::new();
        let mut i: usize = 0;
        while i < n
            invariant
                n == self.entries@.len(),
                want == expired_at(records_of(self.entries@), now),
                i <= n,
                expired@ == want.take(i as int),
            decreases n - i,
        {
            let e = !instant_lt(now, self.entries[i].expires);
            proof {
                assert(records_of(self.entries@)[i as int].1 == self.entries@[i as int].expires);
                assert(e == want[i as int]);
            }
            expired.push(e);
            i = i + 1;
            assert(expired@ =~= want.take(i as int));
        }
        assert(expired@ =~= want);
        let expires = instant_plus(now, self.ttl);
        let ghost before = self.records();
        proof {
            lemma_seen_step_live(before, id@, expires, expired@, self.cap);
        }
        self.add_and_check_after(id, expires, expired.as_slice())
    }

    /// Reports whether `id` was seen within its lifetime, recording it when
    /// not (see `add_and_check_at`).
    pub fn add_and_check(&mut self, id: &str) -> (r: bool)
        ensures
            exists|now: Instant|
                (r, final(self).records()) == #[trigger] seen_step(
                    old(self).records(),
                    id@,
                    instant_after(now, old(self).lifetime()),
                    expired_at(old(self).records(), now),
                    old(self).limit(),
                ),
            r ==> old(self).live().contains_key(id@) && final(self).live() == old(self).live(),
            !old(self).live().contains_key(id@) ==> !r,
            final(self).live().len() <= seen_bound(final(self).limit()),
            final(self).limit() == old(self).limit(),
            final(self).lifetime() == old(self).lifetime(),
    {
        let now = instant_now();
        self.add_and_check_at(id, now)
    }
}

} // verus!
