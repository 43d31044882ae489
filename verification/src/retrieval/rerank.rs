//! Reading an LLM reranker's reply: the pool indices it lists, best first.
use vstd::prelude::*;
use crate::json::{integral_of_bits, json_value_at, parse_json_value, f64_integral, JsonNumber, JsonValue};
use crate::text::{chars_of, find, find_at, lemma_find_from, lemma_rfind_upto, rfind, rfind_in, string_range, trim, trim_bounds};

verus! {

/// The integer `Value::as_i64` gives for a number, or failing that its
/// `as_f64` when that is whole, cast to `i64` (saturating at either end).
pub open spec fn whole_of(n: JsonNumber) -> Option<i64> {
    match n {
        JsonNumber::Unsigned(u) => Some(if u <= i64::MAX { u as i64 } else { i64::MAX }),
        JsonNumber::Signed(i) => Some(i),
        JsonNumber::Float(Some(bits)) => match f64_integral(bits) {
            Some((neg, m)) => Some(
                if neg {
                    if m > 0x8000_0000_0000_0000 {
                        i64::MIN
                    } else {
                        (-(m as int)) as i64
                    }
                } else if m > i64::MAX {
                    i64::MAX
                } else {
                    m as i64
                },
            ),
            None => None,
        },
        JsonNumber::Float(None) => None,
    }
}

/// The index an entry of the reply's array names, when it is a whole number.
pub open spec fn rank_entry(v: JsonValue) -> Option<i64> {
    match v {
        JsonValue::Number(n) => whole_of(n),
        _ => None,
    }
}

/// The entries' indices, as `usize`, that fall inside a pool of `pool`, in
/// order; nothing at all once an entry is not a whole number.
pub open spec fn ranked(items: Seq<JsonValue>, pool: usize) -> Option<Seq<usize>>
    decreases items.len(),
{
    if items.len() == 0 {
        Some(Seq::empty())
    } else {
        match (ranked(items.drop_last(), pool), rank_entry(items.last())) {
            (Some(prev), Some(n)) => if (n as usize) < pool {
                Some(prev.push(n as usize))
            } else {
                Some(prev)
            },
            _ => None,
        }
    }
}

/// The ranking a parsed reply gives: an array whose entries are all whole
/// numbers and at least one of which falls inside the pool.
pub open spec fn ranking_of_value(v: Option<JsonValue>, pool: usize) -> Option<Seq<usize>> {
    match v {
        Some(JsonValue::Array(items)) => match ranked(items@, pool) {
            Some(s) => if s.len() > 0 {
                Some(s)
            } else {
                None
            },
            None => None,
        },
        _ => None,
    }
}

/// The text from the first `[` to the last `]` of the trimmed reply, when the
/// first comes before the last.
pub open spec fn bracket_span(s: Seq<char>) -> Option<Seq<char>> {
    let t = trim(s);
    match (find(t, seq!['[']), rfind(t, seq![']'])) {
        (Some(a), Some(b)) => if b <= a {
            None
        } else {
            Some(t.subrange(a, b + 1))
        },
        _ => None,
    }
}

/// The ranking an LLM reranker's reply gives (see `ranking_of_value`).
pub open spec fn ranking_of(response: Seq<char>, pool: usize) -> Option<Seq<usize>> {
    match bracket_span(response) {
        Some(slice) => ranking_of_value(json_value_at(slice), pool),
        None => None,
    }
}

fn whole_number(n: JsonNumber) -> (r: Option<i64>)
    ensures
        r == whole_of(n),
{
    match n {
        JsonNumber::Unsigned(u) => Some(if u <= 0x7fff_ffff_ffff_ffff { u as i64 } else { i64::MAX }),
        JsonNumber::Signed(i) => Some(i),
        JsonNumber::Float(Some(bits)) => match integral_of_bits(bits) {
            Some((neg, m)) => Some(
                if neg {
                    if m > 0x8000_0000_0000_0000 {
                        i64::MIN
                    } else {
                        (0i128 - m as i128) as i64
                    }
                } else if m > 0x7fff_ffff_ffff_ffff {
                    i64::MAX
                } else {
                    m as i64
                },
            ),
            None => None,
        },
        JsonNumber::Float(None) => None,
    }
}

proof fn lemma_ranked_stays_none(items: Seq<JsonValue>, pool: usize, k: int)
    requires
        0 <= k <= items.len(),
        ranked(items.take(k), pool) is None,
    ensures
        ranked(items, pool) is None,
    decreases items.len() - k,
{
    if k < items.len() {
        assert(items.take(k + 1).drop_last() =~= items.take(k));
        lemma_ranked_stays_none(items, pool, k + 1);
    } else {
        assert(items.take(k) =~= items);
    }
}

/// The ranking a parsed reply gives (see `ranking_of_value`).
pub fn ranking_from_value(v: &Option<JsonValue>, pool: usize) -> (r: Option<Vec<usize>>)
    ensures
        match r {
            Some(x) => ranking_of_value(*v, pool) == Some(x@),
            None => ranking_of_value(*v, pool) is None,
        },
{
    let items = match v {
        Some(JsonValue::Array(items)) => items,
        _ => return None,
    };
    let mut out: Vec<usize> = Vec::new();
    let mut i: usize = 0;
    assert(items@.take(0) =~= Seq::<JsonValue>::empty());
    while i < items.len()
        invariant
            *v == Some(JsonValue::Array(*items)),
            i <= items@.len(),
            ranked(items@.take(i as int), pool) == Some(out@),
        decreases items.len() - i,
    {
        assert(items@.take(i + 1).drop_last() =~= items@.take(i as int));
        assert(items@.take(i + 1).last() == items@[i as int]);
        let entry = match &items[i] {
            JsonValue::Number(n) => whole_number(*n),
            _ => None,
        };
        match entry {
            Some(n) => {
                let idx = #[verifier::truncate] (n as usize);
                if idx < pool {
                    out.push(idx);
                }
            },
            None => {
                proof {
                    assert(rank_entry(items@[i as int]) is None);
                    assert(ranked(items@.take(i + 1), pool) is None);
                    lemma_ranked_stays_none(items@, pool, i + 1);
                }
                return None;
            },
        }
        i = i + 1;
    }
    assert(items@.take(i as int) =~= items@);
    if out.len() == 0 {
        None
    } else {
        Some(out)
    }
}

/// The pool indices an LLM reranker's reply lists: the JSON array between
/// the first `[` and the last `]` of the trimmed reply, each entry a whole
/// number; out-of-pool indices are dropped. `None` when there is no such
/// array, an entry is not a whole number, or nothing usable remains.
pub fn parse_ranking(response: &str, pool: usize) -> (r: Option<Vec<usize>>)
    ensures
        match r {
            Some(x) => ranking_of(response@, pool) == Some(x@),
            None => ranking_of(response@, pool) is None,
        },
{
    let v = chars_of(response);
    let (a, b) = trim_bounds(v.as_slice());
    let ts = string_range(v.as_slice(), a, b);
    let t = chars_of(ts.as_str());
    let open_br: Vec<char> = vec!['['];
    let close_br: Vec<char> = vec![']'];
    assert(open_br@ =~= seq!['[']);
    assert(close_br@ =~= seq![']']);
    let start = match find_at(t.as_slice(), open_br.as_slice(), 0) {
        Some(i) => i,
        None => return None,
    };
    let end = match rfind_in(t.as_slice(), close_br.as_slice()) {
        Some(j) => j,
        None => return None,
    };
    if end <= start {
        return None;
    }
    proof {
        lemma_rfind_upto(t@, close_br@, t@.len() - 1);
    }
    let slice = string_range(t.as_slice(), start, end + 1);
    let parsed = parse_json_value(slice.as_str());
    ranking_from_value(&parsed, pool)
}

/// The indices `order` names inside a head of `n`, each once, in the order
/// they are first named.
pub open spec fn picked(order: Seq<usize>, n: nat) -> Seq<usize>
    decreases order.len(),
{
    if order.len() == 0 {
        Seq::empty()
    } else {
        let prev = picked(order.drop_last(), n);
        let i = order.last();
        if i < n && !prev.contains(i) {
            prev.push(i)
        } else {
            prev
        }
    }
}

/// The indices below `n` that `chosen` lacks, ascending.
pub open spec fn unpicked(n: nat, chosen: Seq<usize>) -> Seq<usize>
    decreases n,
{
    if n == 0 {
        Seq::empty()
    } else {
        let prev = unpicked((n - 1) as nat, chosen);
        let i = (n - 1) as usize;
        if chosen.contains(i) {
            prev
        } else {
            prev.push(i)
        }
    }
}

/// The entries of `s` whose candidate's remoteness is `want`, in order.
pub open spec fn tier(s: Seq<usize>, remote: Seq<bool>, want: bool) -> Seq<usize>
    decreases s.len(),
{
    if s.len() == 0 {
        Seq::empty()
    } else {
        let prev = tier(s.drop_last(), remote, want);
        if remote[s.last() as int] == want {
            prev.push(s.last())
        } else {
            prev
        }
    }
}

/// The new order of a head of candidates, `remote[i]` telling whether
/// candidate `i` came from an unverified peer: the ones the ranking names,
/// first mention first, then the rest in their old order; when `tiered`, a
/// stable partition then puts every local candidate before every remote one.
pub open spec fn reranked(order: Seq<usize>, remote: Seq<bool>, tiered: bool) -> Seq<usize> {
    let chosen = picked(order, remote.len());
    let merged = chosen + unpicked(remote.len(), chosen);
    if tiered {
        tier(merged, remote, false) + tier(merged, remote, true)
    } else {
        merged
    }
}

proof fn lemma_picked_below(order: Seq<usize>, n: nat)
    ensures
        forall|k: int| 0 <= k < picked(order, n).len() ==> #[trigger] picked(order, n)[k] < n,
    decreases order.len(),
{
    if order.len() > 0 {
        lemma_picked_below(order.drop_last(), n);
        let prev = picked(order.drop_last(), n);
        let cur = picked(order, n);
        assert forall|k: int| 0 <= k < cur.len() implies #[trigger] cur[k] < n by {
            if k < prev.len() {
                assert(cur[k] == prev[k]);
            }
        }
    }
}

proof fn lemma_unpicked_below(n: nat, chosen: Seq<usize>)
    ensures
        forall|k: int| 0 <= k < unpicked(n, chosen).len() ==> #[trigger] unpicked(n, chosen)[k] < n,
    decreases n,
{
    if n > 0 {
        lemma_unpicked_below((n - 1) as nat, chosen);
        let prev = unpicked((n - 1) as nat, chosen);
        let cur = unpicked(n, chosen);
        assert forall|k: int| 0 <= k < cur.len() implies #[trigger] cur[k] < n by {
            if k < prev.len() {
                assert(cur[k] == prev[k]);
            }
        }
    }
}

proof fn lemma_tier_flag(s: Seq<usize>, remote: Seq<bool>, want: bool)
    ensures
        forall|k: int| 0 <= k < tier(s, remote, want).len() ==> remote[#[trigger] tier(s, remote, want)[k] as int] == want,
    decreases s.len(),
{
    if s.len() > 0 {
        lemma_tier_flag(s.drop_last(), remote, want);
        let prev = tier(s.drop_last(), remote, want);
        let cur = tier(s, remote, want);
        assert forall|k: int| 0 <= k < cur.len() implies remote[#[trigger] cur[k] as int] == want by {
            if k < prev.len() {
                assert(cur[k] == prev[k]);
            }
        }
    }
}

/// The reranker cannot lift a remote candidate above a local one: in a
/// tiered reorder, no remote candidate comes before a local one, whatever
/// ranking the model returned.
pub proof fn lemma_remote_never_above_local(order: Seq<usize>, remote: Seq<bool>)
    ensures
        forall|a: int, b: int|
            0 <= a < b < reranked(order, remote, true).len() && remote[#[trigger] reranked(order, remote, true)[a] as int]
                ==> remote[#[trigger] reranked(order, remote, true)[b] as int],
{
    let chosen = picked(order, remote.len());
    let merged = chosen + unpicked(remote.len(), chosen);
    let lo = tier(merged, remote, false);
    let hi = tier(merged, remote, true);
    lemma_tier_flag(merged, remote, false);
    lemma_tier_flag(merged, remote, true);
    let r = reranked(order, remote, true);
    assert(r == lo + hi);
    assert forall|a: int, b: int|
        0 <= a < b < r.len() && remote[#[trigger] r[a] as int] implies remote[#[trigger] r[b] as int] by {
        if a < lo.len() {
            assert(r[a] == lo[a]);
            assert(!remote[lo[a] as int]);
        } else {
            assert(b >= lo.len());
            assert(r[b] == hi[b - lo.len()]);
        }
    }
}

proof fn lemma_push_facts(s: Seq<usize>, x: usize)
    ensures
        forall|y: usize| #[trigger] s.push(x).contains(y) <==> (s.contains(y) || y == x),
        s.no_duplicates() && !s.contains(x) ==> s.push(x).no_duplicates(),
{
    let t = s.push(x);
    assert forall|y: usize| #[trigger] t.contains(y) <==> (s.contains(y) || y == x) by {
        if t.contains(y) {
            let k = t.index_of(y);
            if k < s.len() {
                assert(s[k] == y);
            }
        }
        if s.contains(y) {
            let k = s.index_of(y);
            assert(t[k] == y);
        }
        if y == x {
            assert(t[s.len() as int] == x);
        }
    }
    if s.no_duplicates() && !s.contains(x) {
        assert forall|i: int, j: int| 0 <= i < t.len() && 0 <= j < t.len() && i != j implies t[i] != t[j] by {
            if i < s.len() && j < s.len() {
                assert(t[i] == s[i] && t[j] == s[j]);
            } else if i < s.len() {
                assert(t[i] == s[i]);
            } else {
                assert(t[j] == s[j]);
            }
        }
    }
}

proof fn lemma_concat_facts(a: Seq<usize>, b: Seq<usize>)
    ensures
        forall|y: usize| #[trigger] (a + b).contains(y) <==> (a.contains(y) || b.contains(y)),
        a.no_duplicates() && b.no_duplicates() && (forall|y: usize| a.contains(y) ==> !b.contains(y))
            ==> (a + b).no_duplicates(),
{
    let t = a + b;
    assert forall|y: usize| #[trigger] t.contains(y) <==> (a.contains(y) || b.contains(y)) by {
        if t.contains(y) {
            let k = t.index_of(y);
            if k < a.len() {
                assert(a[k] == y);
            } else {
                assert(b[k - a.len()] == y);
            }
        }
        if a.contains(y) {
            let k = a.index_of(y);
            assert(t[k] == y);
        }
        if b.contains(y) {
            let k = b.index_of(y);
            assert(t[k + a.len()] == y);
        }
    }
    if a.no_duplicates() && b.no_duplicates() && (forall|y: usize| a.contains(y) ==> !b.contains(y)) {
        assert forall|i: int, j: int| 0 <= i < t.len() && 0 <= j < t.len() && i != j implies t[i] != t[j] by {
            if i < a.len() && j < a.len() {
                assert(t[i] == a[i] && t[j] == a[j]);
            } else if i >= a.len() && j >= a.len() {
                assert(t[i] == b[i - a.len()] && t[j] == b[j - a.len()]);
            } else if i < a.len() {
                assert(t[i] == a[i] && t[j] == b[j - a.len()]);
                assert(a.contains(a[i]));
                assert(b.contains(b[j - a.len()]));
            } else {
                assert(t[j] == a[j] && t[i] == b[i - a.len()]);
                assert(a.contains(a[j]));
                assert(b.contains(b[i - a.len()]));
            }
        }
    }
}

proof fn lemma_picked_no_dup(order: Seq<usize>, n: nat)
    ensures
        picked(order, n).no_duplicates(),
    decreases order.len(),
{
    if order.len() > 0 {
        lemma_picked_no_dup(order.drop_last(), n);
        lemma_push_facts(picked(order.drop_last(), n), order.last());
    }
}

proof fn lemma_unpicked_facts(n: nat, chosen: Seq<usize>)
    requires
        n <= usize::MAX + 1,
    ensures
        unpicked(n, chosen).no_duplicates(),
        forall|y: usize| #[trigger] unpicked(n, chosen).contains(y) <==> (y < n && !chosen.contains(y)),
    decreases n,
{
    if n > 0 {
        let m = (n - 1) as nat;
        lemma_unpicked_facts(m, chosen);
        let prev = unpicked(m, chosen);
        let i = (n - 1) as usize;
        lemma_push_facts(prev, i);
    }
}

proof fn lemma_tier_facts(s: Seq<usize>, remote: Seq<bool>, want: bool)
    ensures
        forall|y: usize| #[trigger] tier(s, remote, want).contains(y) <==> (s.contains(y) && remote[y as int] == want),
        s.no_duplicates() ==> tier(s, remote, want).no_duplicates(),
    decreases s.len(),
{
    if s.len() > 0 {
        let p = s.drop_last();
        let x = s.last();
        lemma_tier_facts(p, remote, want);
        lemma_push_facts(p, x);
        assert(p.push(x) =~= s);
        lemma_push_facts(tier(p, remote, want), x);
        if s.no_duplicates() {
            assert(p.no_duplicates()) by {
                assert forall|i: int, j: int| 0 <= i < p.len() && 0 <= j < p.len() && i != j implies p[i] != p[j] by {
                    assert(p[i] == s[i] && p[j] == s[j]);
                }
            }
            if p.contains(x) {
                let k = p.index_of(x);
                assert(s[k] == x && s[s.len() - 1] == x);
            }
        }
    }
}

/// The reranker only reorders: every candidate of the head appears in the
/// new order exactly once, and nothing else does, tiered or not.
pub proof fn lemma_reorder_keeps_every_candidate(order: Seq<usize>, remote: Seq<bool>, tiered: bool)
    requires
        remote.len() <= usize::MAX,
    ensures
        reranked(order, remote, tiered).no_duplicates(),
        forall|y: usize| #[trigger] reranked(order, remote, tiered).contains(y) <==> y < remote.len(),
{
    let n = remote.len();
    let chosen = picked(order, n);
    let rest = unpicked(n, chosen);
    let merged = chosen + rest;
    lemma_picked_no_dup(order, n);
    lemma_picked_below(order, n);
    lemma_unpicked_facts(n, chosen);
    lemma_concat_facts(chosen, rest);
    assert forall|y: usize| #[trigger] merged.contains(y) <==> y < n by {
        if chosen.contains(y) {
            let k = chosen.index_of(y);
            assert(chosen[k] < n);
        }
    }
    if tiered {
        let lo = tier(merged, remote, false);
        let hi = tier(merged, remote, true);
        lemma_tier_facts(merged, remote, false);
        lemma_tier_facts(merged, remote, true);
        lemma_concat_facts(lo, hi);
        assert(reranked(order, remote, tiered) == lo + hi);
    }
}

/// Reorders a head of `remote.len()` candidates by a ranking (see
/// `reranked`); the result lists candidate indices, best first.
pub fn rerank_order(order: &[usize], remote: &[bool], tiered: bool) -> (r: Vec<usize>)
    ensures
        r@ == reranked(order@, remote@, tiered),
{
    let n = remote.len();
    let ghost nn = remote@.len();
    let mut used: Vec<bool> = Vec::new();
    let mut j: usize = 0;
    while j < n
        invariant
            n == remote@.len(),
            j <= n,
            used@.len() == j,
            forall|k: int| 0 <= k < j ==> !#[trigger] used@[k],
        decreases n - j,
    {
        used.push(false);
        j = j + 1;
    }
    let mut out: Vec<usize> = Vec::new();
    let mut i: usize = 0;
    assert(order@.take(0) =~= Seq::<usize>::empty());
    while i < order.len()
        invariant
            n == remote@.len(),
            nn == n,
            i <= order@.len(),
            used@.len() == n,
            out@ == picked(order@.take(i as int), nn),
            forall|k: int| 0 <= k < n ==> #[trigger] used@[k] == out@.contains(k as usize),
        decreases order.len() - i,
    {
        assert(order@.take(i + 1).drop_last() =~= order@.take(i as int));
        assert(order@.take(i + 1).last() == order@[i as int]);
        let x = order[i];
        if x < n && !used[x] {
            proof {
                assert forall|k: int| 0 <= k < n implies #[trigger] used@.update(x as int, true)[k]
                    == out@.push(x).contains(k as usize) by {
                    if out@.push(x).contains(k as usize) && k != x {
                        let w = out@.push(x).index_of(k as usize);
                        assert(out@.push(x)[w] == k as usize);
                        assert(w < out@.len());
                        assert(out@[w] == k as usize);
                    }
                    if out@.contains(k as usize) {
                        let w = out@.index_of(k as usize);
                        assert(out@.push(x)[w] == k as usize);
                    }
                    if k == x {
                        assert(out@.push(x)[out@.len() as int] == x);
                    }
                }
            }
            used.set(x, true);
            out.push(x);
        }
        i = i + 1;
    }
    assert(order@.take(i as int) =~= order@);
    let ghost chosen = out@;
    let mut j: usize = 0;
    assert(chosen + unpicked(0, chosen) =~= chosen);
    while j < n
        invariant
            n == remote@.len(),
            nn == n,
            j <= n,
            used@.len() == n,
            chosen == picked(order@, nn),
            forall|k: int| 0 <= k < n ==> #[trigger] used@[k] == chosen.contains(k as usize),
            out@ == chosen + unpicked(j as nat, chosen),
        decreases n - j,
    {
        if !used[j] {
            out.push(j);
        }
        j = j + 1;
        assert(out@ =~= chosen + unpicked(j as nat, chosen));
    }
    if !tiered {
        return out;
    }
    let ghost merged = out@;
    proof {
        lemma_picked_below(order@, nn);
        lemma_unpicked_below(nn, chosen);
        assert forall|k: int| 0 <= k < merged.len() implies #[trigger] merged[k] < n by {
            if k < chosen.len() {
                assert(merged[k] == chosen[k]);
            } else {
                assert(merged[k] == unpicked(nn, chosen)[k - chosen.len()]);
            }
        }
    }
    let mut lo: Vec<usize> = Vec::new();
    let mut hi: Vec<usize> = Vec::new();
    let mut k: usize = 0;
    assert(merged.take(0) =~= Seq::<usize>::empty());
    while k < out.len()
        invariant
            n == remote@.len(),
            out@ == merged,
            forall|q: int| 0 <= q < merged.len() ==> #[trigger] merged[q] < n,
            k <= merged.len(),
            lo@ == tier(merged.take(k as int), remote@, false),
            hi@ == tier(merged.take(k as int), remote@, true),
        decreases out.len() - k,
    {
        assert(merged.take(k + 1).drop_last() =~= merged.take(k as int));
        assert(merged.take(k + 1).last() == merged[k as int]);
        let x = out[k];
        if remote[x] {
            hi.push(x);
        } else {
            lo.push(x);
        }
        k = k + 1;
    }
    assert(merged.take(k as int) =~= merged);
    lo.append(&mut hi);
    lo
}

} // verus!
