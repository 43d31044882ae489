//! Zero-configuration LAN discovery: the announce payload peers multicast and
//! the rule for which announcements name a new peer.
use vstd::prelude::*;
use crate::text::{chars_of, contains, find, find_at, lemma_find_from, lemma_find_from_skip, occurs_at, string_range};

verus! {

/// The prefix every announce payload starts with.
pub open spec fn announce_prefix() -> Seq<char> {
    seq!['k', 'e', 'r', 'n', ':']
}

/// The announce payload for a node: `kern:<network_id>:<tcp_addr>`.
pub open spec fn announce_text(network_id: Seq<char>, tcp_addr: Seq<char>) -> Seq<char> {
    announce_prefix() + network_id + seq![':'] + tcp_addr
}

/// What `parse_announce` reads out of `s`: the network id is everything
/// between the prefix and the first `':'`, the address is the rest. The id
/// must be non-empty and the address must itself hold a `':'` (host:port).
pub open spec fn announce_fields(s: Seq<char>) -> Option<(Seq<char>, Seq<char>)> {
    if s.len() >= 5 && s.subrange(0, 5) == announce_prefix() {
        let rest = s.subrange(5, s.len() as int);
        match find(rest, seq![':']) {
            Some(i) => {
                let id = rest.subrange(0, i);
                let addr = rest.subrange(i + 1, rest.len() as int);
                if id.len() == 0 || !contains(addr, seq![':']) {
                    None
                } else {
                    Some((id, addr))
                }
            },
            None => None,
        }
    } else {
        None
    }
}

fn contains_colon(v: &[char], from: usize) -> (b: bool)
    requires
        from <= v@.len(),
    ensures
        b == contains(v@.subrange(from as int, v@.len() as int), seq![':']),
{
    let ghost t = v@.subrange(from as int, v@.len() as int);
    let mut i = from;
    while i < v.len()
        invariant
            from <= i <= v@.len(),
            t == v@.subrange(from as int, v@.len() as int),
            forall|j: int| from <= j < i ==> v@[j] != ':',
        decreases v.len() - i,
    {
        if v[i] == ':' {
            assert(t.subrange(i - from, i - from + 1) =~= seq![':']);
            assert(occurs_at(t, i - from, seq![':']));
            return true;
        }
        i = i + 1;
    }
    assert forall|k: int| !#[trigger] occurs_at(t, k, seq![':']) by {
        if occurs_at(t, k, seq![':']) {
            assert(t.subrange(k, k + 1)[0] == ':');
            assert(v@[from + k] == ':');
        }
    }
    false
}

/// Parses `kern:<network_id>:<host>:<port>` into the network id and the
/// `host:port` address. The id is everything up to the first `':'` after the
/// prefix (ids never contain one), so operator-chosen ids of any length work.
pub fn parse_announce(s: &str) -> (r: Option<(String, String)>)
    ensures
        match r {
            Some((id, addr)) => announce_fields(s@) == Some((id@, addr@)),
            None => announce_fields(s@) is None,
        },
{
    let v = chars_of(s);
    let prefix = vec!['k', 'e', 'r', 'n', ':'];
    if v.len() < 5 {
        return None;
    }
    assert(prefix@ =~= announce_prefix());
    let mut k: usize = 0;
    while k < 5
        invariant
            k <= 5,
            v@ == s@,
            v@.len() >= 5,
            prefix@ == announce_prefix(),
            forall|j: int| 0 <= j < k ==> v@[j] == prefix@[j],
        decreases 5 - k,
    {
        if v.as_slice()[k] != prefix.as_slice()[k] {
            assert(v@.subrange(0, 5)[k as int] != announce_prefix()[k as int]);
            return None;
        }
        k = k + 1;
    }
    assert(v@.subrange(0, 5) =~= announce_prefix());
    let ghost rest = v@.subrange(5, v@.len() as int);
    let colon = vec![':'];
    let found = find_at(v.as_slice(), colon.as_slice(), 5);
    proof {
        assert(colon@ =~= seq![':']);
        lemma_find_from(v@, colon@, 5);
        lemma_find_from(rest, colon@, 0);
        // An occurrence in `rest` at `j` is an occurrence in `v` at `j + 5`.
        assert forall|j: int| 0 <= j implies (#[trigger] occurs_at(rest, j, colon@) <==> occurs_at(v@, j + 5, colon@)) by {
            if 0 <= j && j + 1 <= rest.len() {
                assert(rest.subrange(j, j + 1) =~= v@.subrange(j + 5, j + 6));
            }
        }
    }
    match found {
        None => {
            proof {
                if let Some(i) = find(rest, seq![':']) {
                    assert(occurs_at(rest, i, colon@));
                    assert(occurs_at(v@, i + 5, colon@));
                }
            }
            None
        },
        Some(i) => {
            proof {
                let fi = (i - 5) as int;
                assert(occurs_at(rest, fi, colon@));
                assert forall|j: int| 0 <= j < fi implies !#[trigger] occurs_at(rest, j, colon@) by {
                    assert(5 <= j + 5 < i);
                    assert(!occurs_at(v@, j + 5, colon@));
                }
                lemma_find_from_skip(rest, colon@, 0, fi);
                assert(find(rest, seq![':']) == Some(fi));
            }
            if i == 5 {
                return None;
            }
            if !contains_colon(v.as_slice(), i + 1) {
                proof {
                    assert(rest.subrange((i - 5) + 1, rest.len() as int) =~= v@.subrange(
                        i + 1,
                        v@.len() as int,
                    ));
                }
                return None;
            }
            let id = string_range(v.as_slice(), 5, i);
            let addr = string_range(v.as_slice(), i + 1, v.len());
            proof {
                assert(rest.subrange(0, (i - 5) as int) =~= id@);
                assert(rest.subrange((i - 5) + 1, rest.len() as int) =~= addr@);
            }
            Some((id, addr))
        },
    }
}

/// The payload a node multicasts to announce itself.
pub fn announce_payload(network_id: &str, tcp_addr: &str) -> (p: String)
    ensures
        p@ == announce_text(network_id@, tcp_addr@),
{
    let mut p = String::from_str("kern:");
    p.append(network_id);
    p.append(":");
    p.append(tcp_addr);
    proof {
        reveal_strlit("kern:");
        reveal_strlit(":");
    }
    assert(p@ =~= announce_text(network_id@, tcp_addr@));
    p
}

/// The peer address an announcement `s` names, when it is one this node
/// should add: a well-formed payload on our network that is not our own.
pub fn announced_peer(s: &str, network_id: &str, own_addr: &str) -> (r: Option<String>)
    ensures
        r matches Some(addr) ==> announce_fields(s@) == Some((network_id@, addr@)) && addr@
            != own_addr@,
        r is None ==> match announce_fields(s@) {
            Some((id, addr)) => id != network_id@ || addr == own_addr@,
            None => true,
        },
{
    match parse_announce(s) {
        Some((nid, addr)) => {
            let id_matches = crate::text::str_eq(nid.as_str(), network_id);
            let is_self = crate::text::str_eq(addr.as_str(), own_addr);
            if id_matches && !is_self {
                Some(addr)
            } else {
                None
            }
        },
        None => None,
    }
}

/// An announcement built by `announce_payload` parses back into the id and
/// address it was built from, whenever the id is non-empty and colon-free and
/// the address is a `host:port` pair.
pub proof fn lemma_announce_round_trip(network_id: Seq<char>, tcp_addr: Seq<char>)
    requires
        network_id.len() > 0,
        forall|j: int| 0 <= j < network_id.len() ==> #[trigger] network_id[j] != ':',
        contains(tcp_addr, seq![':']),
    ensures
        announce_fields(announce_text(network_id, tcp_addr)) == Some((network_id, tcp_addr)),
{
    let s = announce_text(network_id, tcp_addr);
    let rest = s.subrange(5, s.len() as int);
    let n = network_id.len() as int;
    assert(s.subrange(0, 5) =~= announce_prefix());
    assert(rest =~= network_id + seq![':'] + tcp_addr);
    assert forall|j: int| 0 <= j < n implies !#[trigger] occurs_at(rest, j, seq![':']) by {
        assert(rest.subrange(j, j + 1)[0] == network_id[j]);
    }
    assert(rest.subrange(n, n + 1) =~= seq![':']);
    lemma_find_from_skip(rest, seq![':'], 0, n);
    assert(rest.subrange(0, n) =~= network_id);
    assert(rest.subrange(n + 1, rest.len() as int) =~= tcp_addr);
}

/// `parse_announce` reads exactly the payloads `announce_payload` writes: a
/// text gives the id and address it does if and only if it is the payload
/// for them, with a non-empty, colon-free id and a `host:port` address. So a
/// parsed announcement, written out again, is the text it was read from.
pub proof fn lemma_announce_fields_exactly(s: Seq<char>, network_id: Seq<char>, tcp_addr: Seq<char>)
    ensures
        announce_fields(s) == Some((network_id, tcp_addr)) <==> {
            &&& s == announce_text(network_id, tcp_addr)
            &&& network_id.len() > 0
            &&& forall|j: int| 0 <= j < network_id.len() ==> #[trigger] network_id[j] != ':'
            &&& contains(tcp_addr, seq![':'])
        },
{
    if announce_fields(s) == Some((network_id, tcp_addr)) {
        let rest = s.subrange(5, s.len() as int);
        lemma_find_from(rest, seq![':'], 0);
        let i = find(rest, seq![':'])->0;
        assert(occurs_at(rest, i, seq![':']));
        assert(rest[i] == ':') by {
            assert(rest.subrange(i, i + 1)[0] == rest[i]);
        }
        assert forall|j: int| 0 <= j < network_id.len() implies #[trigger] network_id[j] != ':' by {
            assert(network_id[j] == rest[j]);
            if rest[j] == ':' {
                assert(rest.subrange(j, j + 1) =~= seq![':']);
                assert(occurs_at(rest, j, seq![':']));
            }
        }
        assert(s =~= announce_prefix() + network_id + seq![':'] + tcp_addr) by {
            assert(s =~= s.subrange(0, 5) + rest);
            assert(rest =~= rest.subrange(0, i) + seq![':'] + rest.subrange(i + 1, rest.len() as int));
        }
    }
    if s == announce_text(network_id, tcp_addr) && network_id.len() > 0 && (forall|j: int|
        0 <= j < network_id.len() ==> #[trigger] network_id[j] != ':') && contains(tcp_addr, seq![':']) {
        lemma_announce_round_trip(network_id, tcp_addr);
    }
}

} // verus!
