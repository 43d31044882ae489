//! Advisory routing hints learned from gossip ("which peer serves X"), each
//! with an expiry, in capped tables that evict the soonest-expiring entry.
use vstd::prelude::*;
use std::time::{Duration, Instant};
use crate::text::str_eq;
use crate::clock::{clock_order_laws, instant_after, instant_before, instant_eq, instant_lt, instant_now, instant_plus, instant_same};

verus! {

/// The table bound a fresh ledger starts with.
pub const DEFAULT_LEDGER_CAP: usize = 10000;

/// `s < t` in `str` order: by characters, a proper prefix first.
pub open spec fn str_lt(s: Seq<char>, t: Seq<char>) -> bool
    decreases s.len(),
{
    if t.len() == 0 {
        false
    } else if s.len() == 0 {
        true
    } else if s[0] != t[0] {
        (s[0] as int) < (t[0] as int)
    } else {
        str_lt(s.drop_first(), t.drop_first())
    }
}

/// No text sorts before itself.
pub proof fn lemma_str_lt_irreflexive(s: Seq<char>)
    ensures
        !str_lt(s, s),
    decreases s.len(),
{
    if s.len() > 0 {
        lemma_str_lt_irreflexive(s.drop_first());
    }
}

/// Text order is transitive.
pub proof fn lemma_str_lt_transitive(a: Seq<char>, b: Seq<char>, c: Seq<char>)
    requires
        str_lt(a, b),
        str_lt(b, c),
    ensures
        str_lt(a, c),
    decreases a.len(),
{
    if a.len() > 0 && b.len() > 0 && c.len() > 0 && a[0] == b[0] && b[0] == c[0] {
        lemma_str_lt_transitive(a.drop_first(), b.drop_first(), c.drop_first());
    }
}

/// Entry `(ka, ta)` comes before entry `(kb, tb)` in `(expiry, key)` order:
/// it expires sooner, or at the same reading with the smaller key.
pub open spec fn sooner(ka: Seq<char>, ta: Instant, kb: Seq<char>, tb: Instant) -> bool {
    instant_before(ta, tb) || (instant_same(ta, tb) && str_lt(ka, kb))
}

/// Where the clock's order keeps std's promises, `(expiry, key)` order is a
/// strict order: nothing comes before itself, and it is transitive.
pub proof fn lemma_sooner_strict(
    ka: Seq<char>, ta: Instant, kb: Seq<char>, tb: Instant, kc: Seq<char>, tc: Instant,
)
    requires
        clock_order_laws(),
    ensures
        !sooner(ka, ta, ka, ta),
        sooner(ka, ta, kb, tb) && sooner(kb, tb, kc, tc) ==> sooner(ka, ta, kc, tc),
{
    lemma_str_lt_irreflexive(ka);
    assert(!instant_before(ta, ta));
    if sooner(ka, ta, kb, tb) && sooner(kb, tb, kc, tc) {
        if instant_before(ta, tb) && instant_before(tb, tc) {
        } else if instant_before(ta, tb) {
            assert(instant_same(tb, tc));
            assert(tb == tc);
        } else if instant_before(tb, tc) {
            assert(instant_same(ta, tb));
            assert(ta == tb);
        } else {
            assert(instant_same(ta, tb) && instant_same(tb, tc));
            assert(ta == tb && tb == tc);
            assert(instant_same(ta, tc));
            lemma_str_lt_transitive(ka, kb, kc);
        }
    }
}

/// Whether `s` sorts before `t` (see `str_lt`).
pub fn str_less(s: &str, t: &str) -> (r: bool)
    ensures
        r == str_lt(s@, t@),
{
    let a = crate::text::chars_of(s);
    let b = crate::text::chars_of(t);
    let mut i: usize = 0;
    assert(s@.skip(0) =~= s@);
    assert(t@.skip(0) =~= t@);
    while i < a.len() && i < b.len()
        invariant
            i <= a@.len(),
            i <= b@.len(),
            a@ == s@,
            b@ == t@,
            a@.take(i as int) == b@.take(i as int),
            str_lt(s@, t@) == str_lt(s@.skip(i as int), t@.skip(i as int)),
        decreases a.len() - i,
    {
        if a[i] != b[i] {
            proof {
                assert(s@.skip(i as int)[0] == a@[i as int]);
                assert(t@.skip(i as int)[0] == b@[i as int]);
            }
            return a[i] < b[i];
        }
        proof {
            assert(s@.skip(i as int).drop_first() =~= s@.skip(i + 1));
            assert(t@.skip(i as int).drop_first() =~= t@.skip(i + 1));
            assert(a@.take(i + 1) =~= a@.take(i as int).push(a@[i as int]));
            assert(b@.take(i + 1) =~= b@.take(i as int).push(b@[i as int]));
        }
        i = i + 1;
    }
    proof {
        assert(s@.skip(i as int).len() == s@.len() - i);
        assert(t@.skip(i as int).len() == t@.len() - i);
    }
    i < b.len()
}

struct Entry {
    key: String,
    addr: String,
    expires: Instant,
}

spec fn keys_of(es: Seq<Entry>) -> Seq<Seq<char>> {
    es.map_values(|e: Entry| e.key@)
}

spec fn addrs_of(es: Seq<Entry>) -> Map<Seq<char>, (Seq<char>, Instant)> {
    Map::new(
        |k: Seq<char>| keys_of(es).contains(k),
        |k: Seq<char>| (es[keys_of(es).index_of(k)].addr@, es[keys_of(es).index_of(k)].expires),
    )
}

proof fn lemma_index_of(es: Seq<Entry>, i: int)
    requires
        keys_of(es).no_duplicates(),
        0 <= i < es.len(),
    ensures
        keys_of(es).index_of(keys_of(es)[i]) == i,
{
    let k = keys_of(es)[i];
    assert(keys_of(es).contains(k));
    let j = keys_of(es).index_of(k);
    assert(0 <= j < keys_of(es).len() && keys_of(es)[j] == k);
}

proof fn lemma_addrs_len(es: Seq<Entry>)
    requires
        keys_of(es).no_duplicates(),
    ensures
        addrs_of(es).len() == es.len(),
        addrs_of(es).dom().finite(),
{
    keys_of(es).unique_seq_to_set();
    assert(addrs_of(es).dom() =~= keys_of(es).to_set());
}

proof fn lemma_push_entry(es: Seq<Entry>, e: Entry)
    requires
        keys_of(es).no_duplicates(),
        !keys_of(es).contains(e.key@),
    ensures
        keys_of(es.push(e)).no_duplicates(),
        addrs_of(es.push(e)) == addrs_of(es).insert(e.key@, (e.addr@, e.expires)),
{
    let ne = es.push(e);
    let want = addrs_of(es).insert(e.key@, (e.addr@, e.expires));
    assert(keys_of(ne) =~= keys_of(es).push(e.key@));
    lemma_index_of(ne, es.len() as int);
    assert forall|k: Seq<char>| #[trigger] addrs_of(ne).contains_key(k) <==> want.contains_key(k) by {
        if k == e.key@ {
            assert(keys_of(ne)[es.len() as int] == k);
        } else if keys_of(es).contains(k) {
            let j = keys_of(es).index_of(k);
            assert(keys_of(ne)[j] == k);
        }
    }
    assert forall|k: Seq<char>| #[trigger] addrs_of(ne).contains_key(k) implies addrs_of(ne)[k]
        == want[k] by {
        if k != e.key@ {
            let j = keys_of(ne).index_of(k);
            assert(0 <= j < keys_of(ne).len() && keys_of(ne)[j] == k);
            assert(keys_of(es)[j] == k);
            lemma_index_of(es, j);
        }
    }
    assert(addrs_of(ne) =~= want);
}

proof fn lemma_remove_entry(es: Seq<Entry>, i: int)
    requires
        keys_of(es).no_duplicates(),
        0 <= i < es.len(),
    ensures
        keys_of(es.remove(i)).no_duplicates(),
        addrs_of(es.remove(i)) == addrs_of(es).remove(es[i].key@),
{
    let ne = es.remove(i);
    let gone = es[i].key@;
    let want = addrs_of(es).remove(gone);
    assert(keys_of(ne) =~= keys_of(es).remove(i));
    assert forall|a: int, b: int|
        0 <= a < keys_of(ne).len() && 0 <= b < keys_of(ne).len() && a != b implies keys_of(ne)[a]
            != keys_of(ne)[b] by {
        let a0 = if a < i { a } else { a + 1 };
        let b0 = if b < i { b } else { b + 1 };
        assert(keys_of(ne)[a] == keys_of(es)[a0]);
        assert(keys_of(ne)[b] == keys_of(es)[b0]);
    }
    assert forall|k: Seq<char>| #[trigger] addrs_of(ne).contains_key(k) <==> want.contains_key(k) by {
        if keys_of(ne).contains(k) {
            let j = keys_of(ne).index_of(k);
            assert(0 <= j < keys_of(ne).len() && keys_of(ne)[j] == k);
            let j0 = if j < i { j } else { j + 1 };
            assert(keys_of(es)[j0] == k);
            assert(keys_of(es)[j0] != keys_of(es)[i]);
            assert(keys_of(es).contains(k));
        }
        if want.contains_key(k) {
            let j = keys_of(es).index_of(k);
            assert(0 <= j < keys_of(es).len() && keys_of(es)[j] == k);
            assert(j != i);
            let j1 = if j < i { j } else { j - 1 };
            assert(keys_of(ne)[j1] == k);
        }
    }
    assert forall|k: Seq<char>| #[trigger] addrs_of(ne).contains_key(k) implies addrs_of(ne)[k]
        == want[k] by {
        let j = keys_of(ne).index_of(k);
        assert(0 <= j < keys_of(ne).len() && keys_of(ne)[j] == k);
        let j0 = if j < i { j } else { j + 1 };
        assert(keys_of(es)[j0] == k);
        lemma_index_of(es, j0);
    }
    assert(addrs_of(ne) =~= want);
}

fn find_entry(es: &Vec<Entry>, key: &str) -> (r: Option<usize>)
    ensures
        r matches Some(i) ==> i < es@.len() && keys_of(es@)[i as int] == key@,
        r is None ==> !keys_of(es@).contains(key@),
{
    let n = es.len();
    let mut i: usize = 0;
    while i < n
        invariant
            n == es@.len(),
            i <= n,
            forall|j: int| 0 <= j < i ==> keys_of(es@)[j] != key@,
        decreases n - i,
    {
        if str_eq(es[i].key.as_str(), key) {
            return Some(i);
        }
        i = i + 1;
    }
    None
}

/// The index of the entry first in `(expiry, key)` order: the soonest
/// expiry, ties going to the smaller key.
fn soonest(es: &Vec<Entry>) -> (r: Option<usize>)
    ensures
        r matches Some(i) ==> i < es@.len(),
        r is None <==> es@.len() == 0,
        r matches Some(i) ==> (clock_order_laws() ==> forall|j: int| 0 <= j < es@.len() ==> !sooner(
            #[trigger] es@[j].key@, es@[j].expires, es@[i as int].key@, es@[i as int].expires)),
{
    let n = es.len();
    if n == 0 {
        return None;
    }
    let mut best: usize = 0;
    let mut i: usize = 1;
    proof {
        if clock_order_laws() {
            lemma_sooner_strict(es@[0].key@, es@[0].expires, es@[0].key@, es@[0].expires, es@[0].key@, es@[0].expires);
        }
    }
    while i < n
        invariant
            n == es@.len(),
            1 <= i <= n,
            best < i,
            clock_order_laws() ==> forall|j: int| 0 <= j < i ==> !sooner(
                #[trigger] es@[j].key@, es@[j].expires, es@[best as int].key@, es@[best as int].expires),
        decreases n - i,
    {
        let a = es[i].expires;
        let b = es[best].expires;
        let ghost old_best = best;
        if instant_lt(a, b) || (instant_eq(a, b) && str_less(es[i].key.as_str(), es[best].key.as_str())) {
            best = i;
            proof {
                if clock_order_laws() {
                    let bi = es@[i as int];
                    let bo = es@[old_best as int];
                    assert(sooner(bi.key@, bi.expires, bo.key@, bo.expires));
                    assert forall|j: int| 0 <= j < i + 1 implies !sooner(
                        #[trigger] es@[j].key@, es@[j].expires, bi.key@, bi.expires) by {
                        let ej = es@[j];
                        lemma_sooner_strict(ej.key@, ej.expires, bi.key@, bi.expires, bo.key@, bo.expires);
                        lemma_sooner_strict(bi.key@, bi.expires, bi.key@, bi.expires, bi.key@, bi.expires);
                        if j == old_best as int {
                            lemma_sooner_strict(bo.key@, bo.expires, bi.key@, bi.expires, bo.key@, bo.expires);
                        }
                    }
                }
            }
        } else {
            proof {
                if clock_order_laws() {
                    let bi = es@[i as int];
                    let bo = es@[best as int];
                    assert(!sooner(bi.key@, bi.expires, bo.key@, bo.expires));
                }
            }
        }
        i = i + 1;
    }
    Some(best)
}

/// How a capped insert reshapes the table: other entries go (the
/// soonest-expiring first) until there is room, so exactly as many stay as
/// fit beside the new one; then the key maps to its new address and expiry.
/// Where the clock's order keeps std's promises, every entry that went comes
/// before every entry that stayed in `(expiry, key)` order: no kept entry
/// expires sooner than an evicted one.
pub open spec fn capped_insert(
    before: Map<Seq<char>, (Seq<char>, Instant)>,
    after: Map<Seq<char>, (Seq<char>, Instant)>,
    key: Seq<char>,
    row: (Seq<char>, Instant),
    cap: usize,
) -> bool {
    let rest = before.remove(key);
    exists|kept: Map<Seq<char>, (Seq<char>, Instant)>|
        {
            &&& forall|k: Seq<char>| #[trigger] kept.contains_key(k) ==> rest.contains_key(k) && kept[k] == rest[k]
            &&& kept.len() == if rest.len() < cap {
                rest.len()
            } else if cap == 0 {
                0
            } else {
                (cap - 1) as nat
            }
            &&& rest.len() < cap ==> kept == rest
            &&& after == kept.insert(key, row)
            &&& clock_order_laws() ==> evicted_first(rest, kept)
        }
}

/// Every entry of `rest` missing from `kept` comes before every entry of
/// `kept` in `(expiry, key)` order.
pub open spec fn evicted_first(
    rest: Map<Seq<char>, (Seq<char>, Instant)>,
    kept: Map<Seq<char>, (Seq<char>, Instant)>,
) -> bool {
    forall|e: Seq<char>, k: Seq<char>|
        #![trigger rest.contains_key(e), kept.contains_key(k)]
        rest.contains_key(e) && !kept.contains_key(e) && kept.contains_key(k)
            ==> !sooner(k, kept[k].1, e, rest[e].1)
}

/// A capped table of keys to addresses, each with an expiry.
pub struct Index {
    entries: Vec<Entry>,
}

impl Index {
    #[verifier::type_invariant]
    spec fn keys_distinct(self) -> bool {
        keys_of(self.entries@).no_duplicates()
    }

    /// The table: each key to its address and expiry.
    pub closed spec fn addrs(self) -> Map<Seq<char>, (Seq<char>, Instant)> {
        addrs_of(self.entries@)
    }

    /// An empty table.
    pub fn new() -> (r: Self)
        ensures
            r.addrs() == Map::<Seq<char>, (Seq<char>, Instant)>::empty(),
    {
        let entries: Vec<Entry> = Vec::new();
        assert(addrs_of(entries@) =~= Map::<Seq<char>, (Seq<char>, Instant)>::empty());
        Index { entries }
    }

    /// How many keys the table holds.
    pub fn len(&self) -> (r: usize)
        ensures
            r == self.addrs().len(),
    {
        proof {
            use_type_invariant(self);
            lemma_addrs_len(self.entries@);
        }
        self.entries.len()
    }

    /// Maps `key` to `addr` until `expires`. A key already present is
    /// replaced, and its old entry leaves before the capacity check, so an
    /// overwrite never evicts another entry; otherwise, while the table is at
    /// `cap`, the soonest-expiring entry goes.
    pub fn insert(&mut self, key: String, addr: String, expires: Instant, cap: usize)
        ensures
            capped_insert(old(self).addrs(), final(self).addrs(), key@, (addr@, expires), cap),
            final(self).addrs().len() <= if cap == 0 { 1 } else { cap as nat },
    {
        proof {
            use_type_invariant(&*self);
            lemma_addrs_len(self.entries@);
        }
        let ghost before = addrs_of(self.entries@);
        let ghost rest = before.remove(key@);
        let mut es: Vec<Entry> = Vec::new();
        std::mem::swap(&mut es, &mut self.entries);
        match find_entry(&es, key.as_str()) {
            Some(i) => {
                proof {
                    lemma_remove_entry(es@, i as int);
                }
                es.remove(i);
            },
            None => {
                proof {
                    assert(rest =~= before);
                }
            },
        }
        proof {
            lemma_addrs_len(es@);
        }
        assert(addrs_of(es@) == rest);
        while es.len() >= cap
            invariant
                keys_of(es@).no_duplicates(),
                !keys_of(es@).contains(key@),
                forall|k: Seq<char>| #[trigger] addrs_of(es@).contains_key(k) ==> rest.contains_key(k)
                    && addrs_of(es@)[k] == rest[k],
                rest.len() < cap ==> addrs_of(es@) == rest,
                addrs_of(es@).len() == es@.len(),
                rest.len() >= cap ==> es@.len() + 1 >= cap,
                addrs_of(es@).len() <= rest.len(),
                clock_order_laws() ==> evicted_first(rest, addrs_of(es@)),
            ensures
                clock_order_laws() ==> evicted_first(rest, addrs_of(es@)),
                keys_of(es@).no_duplicates(),
                !keys_of(es@).contains(key@),
                forall|k: Seq<char>| #[trigger] addrs_of(es@).contains_key(k) ==> rest.contains_key(k)
                    && addrs_of(es@)[k] == rest[k],
                rest.len() < cap ==> addrs_of(es@) == rest,
                addrs_of(es@).len() == es@.len(),
                rest.len() >= cap ==> es@.len() + 1 >= cap,
                es@.len() < cap || (es@.len() == 0 && cap == 0),
            decreases es@.len(),
        {
            match soonest(&es) {
                Some(i) => {
                    let ghost mid = addrs_of(es@);
                    proof {
                        lemma_remove_entry(es@, i as int);
                        assert(!keys_of(es@.remove(i as int)).contains(key@)) by {
                            if keys_of(es@.remove(i as int)).contains(key@) {
                                assert(addrs_of(es@.remove(i as int)).contains_key(key@));
                            }
                        }
                    }
                    let ghost pre = es@;
                    es.remove(i);
                    proof {
                        lemma_addrs_len(es@);
                        assert forall|k: Seq<char>| #[trigger] addrs_of(es@).contains_key(k) implies rest.contains_key(k)
                            && addrs_of(es@)[k] == rest[k] by {
                            assert(mid.contains_key(k));
                        }
                        if clock_order_laws() {
                            let cur = addrs_of(es@);
                            let gk = pre[i as int].key@;
                            lemma_index_of(pre, i as int);
                            assert(mid.contains_key(gk) && mid[gk].1 == pre[i as int].expires);
                            assert forall|e: Seq<char>, k: Seq<char>|
                                #![trigger rest.contains_key(e), cur.contains_key(k)]
                                rest.contains_key(e) && !cur.contains_key(e) && cur.contains_key(k)
                                    implies !sooner(k, cur[k].1, e, rest[e].1) by {
                                assert(mid.contains_key(k) && mid[k] == cur[k]);
                                if e == gk {
                                    let j = keys_of(pre).index_of(k);
                                    assert(0 <= j < keys_of(pre).len() && keys_of(pre)[j] == k);
                                    lemma_index_of(pre, j);
                                    assert(mid[k].1 == pre[j].expires);
                                    assert(pre[j].key@ == k);
                                    assert(!sooner(pre[j].key@, pre[j].expires, pre[i as int].key@, pre[i as int].expires));
                                } else {
                                    assert(!mid.contains_key(e));
                                }
                            }
                        }
                        if rest.len() < cap {
                            assert(false);
                        }
                    }
                },
                None => {
                    break;
                },
            }
        }
        let ghost kept = addrs_of(es@);
        let e = Entry { key, addr, expires };
        proof {
            lemma_push_entry(es@, e);
            lemma_addrs_len(es@.push(e));
        }
        es.push(e);
        self.entries = es;
        proof {
            assert(self.addrs() == kept.insert(e.key@, (e.addr@, e.expires)));
        }
    }

    /// The address `key` maps to while its entry is live: present, and
    /// expiring after `now`.
    pub fn lookup(&self, key: &str, now: Instant) -> (r: Option<String>)
        ensures
            match r {
                Some(a) => self.addrs().contains_key(key@) && instant_before(now, self.addrs()[key@].1)
                    && self.addrs()[key@].0 == a@,
                None => !self.addrs().contains_key(key@) || !instant_before(now, self.addrs()[key@].1),
            },
    {
        proof {
            use_type_invariant(self);
        }
        match find_entry(&self.entries, key) {
            Some(i) => {
                proof {
                    lemma_index_of(self.entries@, i as int);
                }
                let e = &self.entries[i];
                if instant_lt(now, e.expires) {
                    Some(e.addr.clone())
                } else {
                    None
                }
            },
            None => None,
        }
    }
}

/// What a lookup of `key` in `table` at `now` gives: the address while the
/// key's entry expires after `now`, nothing otherwise.
pub open spec fn looked_up(
    table: Map<Seq<char>, (Seq<char>, Instant)>,
    key: Seq<char>,
    now: Instant,
    r: Option<String>,
) -> bool {
    match r {
        Some(a) => table.contains_key(key) && instant_before(now, table[key].1) && table[key].0 == a@,
        None => !table.contains_key(key) || !instant_before(now, table[key].1),
    }
}

/// The live address of an entry: its address while it expires after `now`.
pub fn live_addr(addr: &str, expires: Instant, now: Instant) -> (r: Option<String>)
    ensures
        match r {
            Some(a) => instant_before(now, expires) && a@ == addr@,
            None => !instant_before(now, expires),
        },
{
    if instant_lt(now, expires) {
        Some(String::from_str(addr))
    } else {
        None
    }
}

/// Advisory TTL'd routing hints learned from gossip: `entities` maps thought
/// id to the peer serving it, `routing` maps kern id to the peer serving it.
pub struct Ledger {
    entities: Index,
    routing: Index,
    max_entries: usize,
    thought_ttl: Duration,
    routing_ttl: Duration,
}

impl Ledger {
    /// The thought table.
    pub closed spec fn thoughts(self) -> Map<Seq<char>, (Seq<char>, Instant)> {
        self.entities.addrs()
    }

    /// The routing table.
    pub closed spec fn routes(self) -> Map<Seq<char>, (Seq<char>, Instant)> {
        self.routing.addrs()
    }

    /// The bound on each table.
    pub closed spec fn table_cap(self) -> usize {
        self.max_entries
    }

    /// How long a thought hint and a routing hint live.
    pub closed spec fn ttls(self) -> (Duration, Duration) {
        (self.thought_ttl, self.routing_ttl)
    }

    /// An empty ledger whose thought and routing hints live for the given
    /// times, each table capped at `DEFAULT_LEDGER_CAP`.
    pub fn new(thought_ttl: Duration, routing_ttl: Duration) -> (r: Self)
        ensures
            r.thoughts() == Map::<Seq<char>, (Seq<char>, Instant)>::empty(),
            r.routes() == Map::<Seq<char>, (Seq<char>, Instant)>::empty(),
            r.table_cap() == DEFAULT_LEDGER_CAP,
            r.ttls() == (thought_ttl, routing_ttl),
    {
        Ledger {
            entities: Index::new(),
            routing: Index::new(),
            max_entries: DEFAULT_LEDGER_CAP,
            thought_ttl,
            routing_ttl,
        }
    }

    /// Sets the cap on each table, floored at 1 so inserts can still land.
    pub fn set_max_entries(&mut self, cap: usize)
        ensures
            final(self).table_cap() == if cap < 1 { 1 } else { cap },
            final(self).thoughts() == old(self).thoughts(),
            final(self).routes() == old(self).routes(),
            final(self).ttls() == old(self).ttls(),
    {
        self.max_entries = if cap < 1 { 1 } else { cap };
    }

    /// The cap on each table.
    pub fn cap(&self) -> (r: usize)
        ensures
            r == self.table_cap(),
    {
        self.max_entries
    }

    /// Records that `addr` serves thought `id` until the thought lifetime from
    /// now has passed. A deadline past the clock's range cannot be recorded,
    /// and then the table stays as it was.
    pub fn put_thought(&mut self, id: &str, addr: &str)
        ensures
            exists|now: Instant|
                match #[trigger] instant_after(now, old(self).ttls().0) {
                    Some(t) => capped_insert(old(self).thoughts(), final(self).thoughts(), id@, (addr@, t), old(self).table_cap()),
                    None => final(self).thoughts() == old(self).thoughts(),
                },
            final(self).routes() == old(self).routes(),
            final(self).table_cap() == old(self).table_cap(),
            final(self).ttls() == old(self).ttls(),
    {
        let now = instant_now();
        let deadline = instant_plus(now, self.thought_ttl);
        if let Some(expires) = deadline {
            let cap = self.max_entries;
            self.entities.insert(String::from_str(id), String::from_str(addr), expires, cap);
        }
        assert(match instant_after(now, old(self).ttls().0) {
            Some(t) => capped_insert(old(self).thoughts(), self.thoughts(), id@, (addr@, t), old(self).table_cap()),
            None => self.thoughts() == old(self).thoughts(),
        });
    }

    /// Records that `addr` serves kern `kern_id` until the routing lifetime
    /// from now has passed. A deadline past the clock's range cannot be
    /// recorded, and then the table stays as it was.
    pub fn put_routing(&mut self, kern_id: &str, addr: &str)
        ensures
            exists|now: Instant|
                match #[trigger] instant_after(now, old(self).ttls().1) {
                    Some(t) => capped_insert(old(self).routes(), final(self).routes(), kern_id@, (addr@, t), old(self).table_cap()),
                    None => final(self).routes() == old(self).routes(),
                },
            final(self).thoughts() == old(self).thoughts(),
            final(self).table_cap() == old(self).table_cap(),
            final(self).ttls() == old(self).ttls(),
    {
        let now = instant_now();
        let deadline = instant_plus(now, self.routing_ttl);
        if let Some(expires) = deadline {
            let cap = self.max_entries;
            self.routing.insert(String::from_str(kern_id), String::from_str(addr), expires, cap);
        }
        assert(match instant_after(now, old(self).ttls().1) {
            Some(t) => capped_insert(old(self).routes(), self.routes(), kern_id@, (addr@, t), old(self).table_cap()),
            None => self.routes() == old(self).routes(),
        });
    }

    /// The peer serving thought `id`, while its hint is live.
    pub fn lookup_thought(&self, id: &str) -> (r: Option<String>)
        ensures
            exists|now: Instant| #[trigger] looked_up(self.thoughts(), id@, now, r),
            r matches Some(a) ==> self.thoughts().contains_key(id@) && self.thoughts()[id@].0 == a@,
            !self.thoughts().contains_key(id@) ==> r is None,
    {
        let now = instant_now();
        let r = self.entities.lookup(id, now);
        assert(looked_up(self.thoughts(), id@, now, r));
        r
    }

    /// The peer serving kern `kern_id`, while its hint is live.
    pub fn lookup_routing(&self, kern_id: &str) -> (r: Option<String>)
        ensures
            exists|now: Instant| #[trigger] looked_up(self.routes(), kern_id@, now, r),
            r matches Some(a) ==> self.routes().contains_key(kern_id@) && self.routes()[kern_id@].0 == a@,
            !self.routes().contains_key(kern_id@) ==> r is None,
    {
        let now = instant_now();
        let r = self.routing.lookup(kern_id, now);
        assert(looked_up(self.routes(), kern_id@, now, r));
        r
    }
}

/// Overwriting a key in a table within its cap replaces that key's row and
/// leaves every other entry where it was.
pub proof fn lemma_overwrite_keeps_others(
    before: Map<Seq<char>, (Seq<char>, Instant)>,
    after: Map<Seq<char>, (Seq<char>, Instant)>,
    key: Seq<char>,
    row: (Seq<char>, Instant),
    cap: usize,
)
    requires
        before.dom().finite(),
        before.contains_key(key),
        before.len() <= cap,
        capped_insert(before, after, key, row, cap),
    ensures
        after == before.insert(key, row),
{
    let rest = before.remove(key);
    assert(rest.len() == before.len() - 1);
    let kept = choose|kept: Map<Seq<char>, (Seq<char>, Instant)>|
        {
            &&& forall|k: Seq<char>| #[trigger] kept.contains_key(k) ==> rest.contains_key(k) && kept[k] == rest[k]
            &&& kept.len() == if rest.len() < cap {
                rest.len()
            } else if cap == 0 {
                0
            } else {
                (cap - 1) as nat
            }
            &&& rest.len() < cap ==> kept == rest
            &&& after == kept.insert(key, row)
        };
    assert(kept == rest);
    assert(rest.insert(key, row) =~= before.insert(key, row));
}

/// A full table stays at its cap: inserting a new key into a table holding
/// `cap` entries leaves `cap` entries.
pub proof fn lemma_full_table_stays_full(
    before: Map<Seq<char>, (Seq<char>, Instant)>,
    after: Map<Seq<char>, (Seq<char>, Instant)>,
    key: Seq<char>,
    row: (Seq<char>, Instant),
    cap: usize,
)
    requires
        before.dom().finite(),
        !before.contains_key(key),
        cap >= 1,
        before.len() == cap,
        capped_insert(before, after, key, row, cap),
    ensures
        after.len() == cap,
{
    let rest = before.remove(key);
    assert(rest =~= before);
    let kept = choose|kept: Map<Seq<char>, (Seq<char>, Instant)>|
        {
            &&& forall|k: Seq<char>| #[trigger] kept.contains_key(k) ==> rest.contains_key(k) && kept[k] == rest[k]
            &&& kept.len() == if rest.len() < cap {
                rest.len()
            } else if cap == 0 {
                0
            } else {
                (cap - 1) as nat
            }
            &&& rest.len() < cap ==> kept == rest
            &&& after == kept.insert(key, row)
        };
    assert(kept.dom().subset_of(rest.dom()));
    vstd::set_lib::lemma_len_subset(kept.dom(), rest.dom());
    assert(!kept.contains_key(key));
}

/// Eviction takes the soonest-expiring entries: where the clock's order keeps
/// std's promises, after a capped insert no entry that stayed expires
/// strictly before one that was evicted, and an entry that expires at the
/// same reading as an evicted one has the larger key.
pub proof fn lemma_eviction_takes_soonest(
    before: Map<Seq<char>, (Seq<char>, Instant)>,
    after: Map<Seq<char>, (Seq<char>, Instant)>,
    key: Seq<char>,
    row: (Seq<char>, Instant),
    cap: usize,
    gone: Seq<char>,
    stayed: Seq<char>,
)
    requires
        clock_order_laws(),
        capped_insert(before, after, key, row, cap),
        before.contains_key(gone),
        gone != key,
        !after.contains_key(gone),
        after.contains_key(stayed),
        stayed != key,
    ensures
        before.contains_key(stayed),
        after[stayed] == before[stayed],
        !instant_before(after[stayed].1, before[gone].1),
        after[stayed].1 == before[gone].1 ==> !str_lt(stayed, gone),
{
    let rest = before.remove(key);
    let kept = choose|kept: Map<Seq<char>, (Seq<char>, Instant)>|
        {
            &&& forall|k: Seq<char>| #[trigger] kept.contains_key(k) ==> rest.contains_key(k) && kept[k] == rest[k]
            &&& kept.len() == if rest.len() < cap {
                rest.len()
            } else if cap == 0 {
                0
            } else {
                (cap - 1) as nat
            }
            &&& rest.len() < cap ==> kept == rest
            &&& after == kept.insert(key, row)
            &&& clock_order_laws() ==> evicted_first(rest, kept)
        };
    assert(kept.contains_key(stayed));
    assert(!kept.contains_key(gone));
    assert(rest.contains_key(gone));
    assert(!sooner(stayed, kept[stayed].1, gone, rest[gone].1));
    if after[stayed].1 == before[gone].1 {
        assert(instant_same(after[stayed].1, before[gone].1));
    }
}

} // verus!
