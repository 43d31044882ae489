//! `MemoryService`: an in-memory table of entries keyed by `key`, used by the
//! truncate-by-timestamp flow. Every access is a point operation: upsert by
//! key, plus `truncate_after`'s full scan.
use vstd::prelude::*;
use crate::text::str_eq;

verus! {

#[derive(Debug, Clone)]
pub struct MemoryEntry {
    pub ts_ms: u64,
    pub key: String,
    pub text: String,
}

/// The keys of a run of entries, in order.
pub open spec fn keys_of(es: Seq<MemoryEntry>) -> Seq<Seq<char>> {
    es.map_values(|e: MemoryEntry| e.key@)
}

/// A run of entries read as a table: each key to its entry's timestamp and
/// text.
pub open spec fn table_of(es: Seq<MemoryEntry>) -> Map<Seq<char>, (u64, Seq<char>)> {
    Map::new(
        |k: Seq<char>| keys_of(es).contains(k),
        |k: Seq<char>| {
            let e = es[keys_of(es).index_of(k)];
            (e.ts_ms, e.text@)
        },
    )
}

/// The entries of `t` stamped at or before `ts_ms`.
pub open spec fn kept_until(t: Map<Seq<char>, (u64, Seq<char>)>, ts_ms: u64) -> Map<
    Seq<char>,
    (u64, Seq<char>),
> {
    Map::new(|k: Seq<char>| t.contains_key(k) && t[k].0 <= ts_ms, |k: Seq<char>| t[k])
}

proof fn lemma_index_of(es: Seq<MemoryEntry>, i: int)
    requires
        keys_of(es).no_duplicates(),
        0 <= i < es.len(),
    ensures
        keys_of(es).index_of(keys_of(es)[i]) == i,
{
    let k = keys_of(es)[i];
    assert(keys_of(es).contains(k));
    let j = keys_of(es).index_of(k);
    assert(0 <= j < keys_of(es).len() && keys_of(es)[j] == k);
}

/// Appending an entry whose key is new adds that key to the table.
proof fn lemma_push_entry(es: Seq<MemoryEntry>, e: MemoryEntry)
    requires
        keys_of(es).no_duplicates(),
        !keys_of(es).contains(e.key@),
    ensures
        keys_of(es.push(e)) == keys_of(es).push(e.key@),
        keys_of(es.push(e)).no_duplicates(),
        table_of(es.push(e)) == table_of(es).insert(e.key@, (e.ts_ms, e.text@)),
{
    let ne = es.push(e);
    let want = table_of(es).insert(e.key@, (e.ts_ms, e.text@));
    assert(keys_of(ne) =~= keys_of(es).push(e.key@));
    lemma_index_of(ne, es.len() as int);
    assert forall|k: Seq<char>| #[trigger] table_of(ne).contains_key(k) <==> want.contains_key(k) by {
        if k == e.key@ {
            assert(keys_of(ne)[es.len() as int] == k);
        } else if keys_of(es).contains(k) {
            let j = keys_of(es).index_of(k);
            assert(keys_of(ne)[j] == k);
        }
    }
    assert forall|k: Seq<char>| #[trigger] table_of(ne).contains_key(k) implies table_of(ne)[k]
        == want[k] by {
        if k != e.key@ {
            let j = keys_of(ne).index_of(k);
            assert(0 <= j < keys_of(ne).len() && keys_of(ne)[j] == k);
            assert(j < es.len());
            assert(keys_of(es)[j] == k);
            lemma_index_of(es, j);
        }
    }
    assert(table_of(ne) =~= want);
}

/// Replacing the entry at `i` by one with the same key replaces that key's
/// row.
proof fn lemma_set_entry(es: Seq<MemoryEntry>, i: int, e: MemoryEntry)
    requires
        keys_of(es).no_duplicates(),
        0 <= i < es.len(),
        es[i].key@ == e.key@,
    ensures
        keys_of(es.update(i, e)) == keys_of(es),
        table_of(es.update(i, e)) == table_of(es).insert(e.key@, (e.ts_ms, e.text@)),
{
    let ne = es.update(i, e);
    let want = table_of(es).insert(e.key@, (e.ts_ms, e.text@));
    assert(keys_of(ne) =~= keys_of(es));
    lemma_index_of(es, i);
    assert forall|k: Seq<char>| #[trigger] table_of(ne).contains_key(k) <==> want.contains_key(k) by {
        if k == e.key@ {
            assert(keys_of(es)[i] == k);
        }
    }
    assert forall|k: Seq<char>| #[trigger] table_of(ne).contains_key(k) implies table_of(ne)[k]
        == want[k] by {
        let j = keys_of(ne).index_of(k);
        assert(0 <= j < keys_of(ne).len() && keys_of(ne)[j] == k);
        if k != e.key@ {
            assert(j != i);
        }
    }
    assert(table_of(ne) =~= want);
}

/// With distinct keys the table has one row per entry.
proof fn lemma_table_len(es: Seq<MemoryEntry>)
    requires
        keys_of(es).no_duplicates(),
    ensures
        table_of(es).len() == es.len(),
{
    keys_of(es).unique_seq_to_set();
    assert(table_of(es).dom() =~= keys_of(es).to_set());
}

fn find_entry(es: &Vec<MemoryEntry>, key: &str) -> (r: Option<usize>)
    ensures
        r matches Some(i) ==> i < es@.len() && keys_of(es@)[i as int] == key@,
        r is None ==> !keys_of(es@).contains(key@),
{
    let n = es.len();
    let mut i: usize = 0;
    while i < n
        invariant
            n == es@.len(),
            i <= n,
            forall|j: int| 0 <= j < i ==> keys_of(es@)[j] != key@,
        decreases n - i,
    {
        if str_eq(es[i].key.as_str(), key) {
            return Some(i);
        }
        i = i + 1;
    }
    None
}

fn copy_entry(e: &MemoryEntry) -> (r: MemoryEntry)
    ensures
        r.ts_ms == e.ts_ms,
        r.key@ == e.key@,
        r.text@ == e.text@,
{
    MemoryEntry { ts_ms: e.ts_ms, key: e.key.clone(), text: e.text.clone() }
}

/// Upsert: after inserting an entry under a key already present, the table
/// still has as many rows, and reading the key gives the later entry.
pub proof fn lemma_upsert_replaces(
    t: Map<Seq<char>, (u64, Seq<char>)>,
    key: Seq<char>,
    row: (u64, Seq<char>),
)
    requires
        t.dom().finite(),
        t.contains_key(key),
    ensures
        t.insert(key, row).len() == t.len(),
        t.insert(key, row)[key] == row,
{
    assert(t.insert(key, row).dom() =~= t.dom());
}

/// Truncating keeps exactly the rows stamped at or before the cut, and doing
/// it twice at the same cut changes nothing more.
pub proof fn lemma_truncate_idempotent(t: Map<Seq<char>, (u64, Seq<char>)>, ts_ms: u64)
    ensures
        forall|k: Seq<char>| #[trigger] kept_until(t, ts_ms).contains_key(k) ==> kept_until(t, ts_ms)[k].0 <= ts_ms,
        kept_until(kept_until(t, ts_ms), ts_ms) == kept_until(t, ts_ms),
{
    assert(kept_until(kept_until(t, ts_ms), ts_ms) =~= kept_until(t, ts_ms));
}

/// An in-memory table of entries, one per key.
pub struct MemoryService {
    entries: Vec<MemoryEntry>,
}

impl MemoryService {
    #[verifier::type_invariant]
    spec fn keys_distinct(self) -> bool {
        keys_of(self.entries@).no_duplicates()
    }

    /// The table: each key to its entry's timestamp and text.
    pub closed spec fn table(self) -> Map<Seq<char>, (u64, Seq<char>)> {
        table_of(self.entries@)
    }

    /// An empty table.
    pub fn new() -> (r: Self)
        ensures
            r.table() == Map::<Seq<char>, (u64, Seq<char>)>::empty(),
    {
        let entries: Vec<MemoryEntry> = Vec::new();
        assert(table_of(entries@) =~= Map::<Seq<char>, (u64, Seq<char>)>::empty());
        MemoryService { entries }
    }

    /// Upserts `e` under its key: a key already present has its entry
    /// replaced, never duplicated.
    pub fn insert(&mut self, e: MemoryEntry)
        ensures
            final(self).table() == old(self).table().insert(e.key@, (e.ts_ms, e.text@)),
    {
        proof {
            use_type_invariant(&*self);
        }
        let mut entries: Vec<MemoryEntry> = Vec::new();
        std::mem::swap(&mut entries, &mut self.entries);
        match find_entry(&entries, e.key.as_str()) {
            Some(i) => {
                proof {
                    lemma_set_entry(entries@, i as int, e);
                }
                entries.set(i, e);
            },
            None => {
                proof {
                    lemma_push_entry(entries@, e);
                }
                entries.push(e);
            },
        }
        self.entries = entries;
    }

    /// Drops the entries stamped after `ts_ms` and returns how many were
    /// removed.
    pub fn truncate_after(&mut self, ts_ms: u64) -> (r: usize)
        ensures
            final(self).table() == kept_until(old(self).table(), ts_ms),
            r == old(self).table().len() - final(self).table().len(),
    {
        proof {
            use_type_invariant(&*self);
        }
        let mut entries: Vec<MemoryEntry> = Vec::new();
        std::mem::swap(&mut entries, &mut self.entries);
        let ghost all = entries@;
        let before = entries.len();
        let mut kept: Vec<MemoryEntry> = Vec::new();
        let mut i: usize = 0;
        proof {
            assert(table_of(kept@) =~= kept_until(table_of(all.take(0)), ts_ms));
        }
        while i < before
            invariant
                before == all.len(),
                entries@ == all,
                keys_of(all).no_duplicates(),
                i <= before,
                keys_of(kept@).no_duplicates(),
                kept@.len() <= i,
                table_of(kept@) == kept_until(table_of(all.take(i as int)), ts_ms),
            decreases before - i,
        {
            let ghost pre = all.take(i as int);
            assert(all.take(i + 1) =~= pre.push(all[i as int]));
            assert(keys_of(pre) =~= keys_of(all).take(i as int));
            assert(!keys_of(pre).contains(all[i as int].key@)) by {
                if keys_of(pre).contains(all[i as int].key@) {
                    let j = keys_of(pre).index_of(all[i as int].key@);
                    assert(keys_of(all)[j] == keys_of(all)[i as int]);
                }
            }
            proof {
                lemma_push_entry(pre, all[i as int]);
            }
            let e = &entries[i];
            if e.ts_ms <= ts_ms {
                let c = copy_entry(e);
                proof {
                    assert(!keys_of(kept@).contains(c.key@)) by {
                        if keys_of(kept@).contains(c.key@) {
                            assert(table_of(kept@).contains_key(c.key@));
                        }
                    }
                    lemma_push_entry(kept@, c);
                    assert(table_of(kept@.push(c)) =~= kept_until(table_of(all.take(i + 1)), ts_ms));
                }
                kept.push(c);
            } else {
                proof {
                    assert(table_of(kept@) =~= kept_until(table_of(all.take(i + 1)), ts_ms));
                }
            }
            i = i + 1;
        }
        proof {
            assert(all.take(before as int) =~= all);
            lemma_table_len(all);
            lemma_table_len(kept@);
        }
        let after = kept.len();
        self.entries = kept;
        before - after
    }

    /// How many entries the table holds.
    pub fn len(&self) -> (r: usize)
        ensures
            r == self.table().len(),
    {
        proof {
            use_type_invariant(self);
            lemma_table_len(self.entries@);
        }
        self.entries.len()
    }

    /// Whether the table is empty.
    pub fn is_empty(&self) -> (r: bool)
        ensures
            r == (self.table().len() == 0),
    {
        self.len() == 0
    }

    /// A copy of every entry, one per key, in no promised order.
    pub fn snapshot(&self) -> (r: Vec<MemoryEntry>)
        ensures
            r@.len() == self.table().len(),
            keys_of(r@).no_duplicates(),
            table_of(r@) == self.table(),
    {
        proof {
            use_type_invariant(self);
            lemma_table_len(self.entries@);
        }
        let n = self.entries.len();
        let mut out: Vec<MemoryEntry> = Vec::new();
        let mut i: usize = 0;
        while i < n
            invariant
                n == self.entries@.len(),
                i <= n,
                out@.len() == i,
                forall|j: int|
                    0 <= j < i ==> (#[trigger] out@[j]).ts_ms == self.entries@[j].ts_ms
                        && out@[j].key@ == self.entries@[j].key@ && out@[j].text@
                        == self.entries@[j].text@,
            decreases n - i,
        {
            out.push(copy_entry(&self.entries[i]));
            i = i + 1;
        }
        proof {
            assert(keys_of(out@) =~= keys_of(self.entries@));
            assert forall|k: Seq<char>| #[trigger] table_of(out@).contains_key(k) implies table_of(
                out@,
            )[k] == table_of(self.entries@)[k] by {
                let j = keys_of(out@).index_of(k);
                assert(out@[j].ts_ms == self.entries@[j].ts_ms);
            }
            assert(table_of(out@) =~= table_of(self.entries@));
        }
        out
    }
}

} // verus!
