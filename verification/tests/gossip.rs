use kern::gossip::discovery::{announce_payload, announced_peer, parse_announce};
use kern::gossip::sybil::RateClipper;
use kern::gossip::types::CrdtTarget;
use std::time::{Duration, Instant};

// A UUID-shaped network id (the generated default).
const NID: &str = "123e4567-e89b-12d3-a456-426614174000";

#[test]
fn parse_announce_accepts_valid_payload() {
    let raw = format!("kern:{NID}:127.0.0.1:7400");
    let (nid, addr) = parse_announce(&raw).expect("valid announce parses");
    assert_eq!(nid, NID);
    assert_eq!(addr, "127.0.0.1:7400");
}

#[test]
fn parse_announce_accepts_operator_configured_id() {
    // A [gossip] network_id override is any colon-free string, not a UUID.
    let raw = "kern:team-alpha:10.0.0.5:7400";
    let (nid, addr) = parse_announce(raw).expect("custom id parses");
    assert_eq!(nid, "team-alpha");
    assert_eq!(addr, "10.0.0.5:7400");
}

#[test]
fn parse_announce_rejects_wrong_prefix() {
    let raw = format!("gossip:{NID}:127.0.0.1:7400");
    assert!(parse_announce(&raw).is_none(), "non-kern prefix is rejected");
}

#[test]
fn parse_announce_rejects_missing_id_addr_separator() {
    // No ':' after the id -> no addr at all.
    assert!(parse_announce("kern:short").is_none());
}

#[test]
fn parse_announce_rejects_addr_without_port_separator() {
    // Splitting at the first ':' leaves an addr with no host:port colon.
    let raw = format!("kern:{NID}X127.0.0.1:7400");
    assert!(parse_announce(&raw).is_none(), "a mangled id/addr boundary is rejected");
}

#[test]
fn parse_announce_rejects_empty_id() {
    assert!(parse_announce("kern::127.0.0.1:7400").is_none());
}

#[test]
fn announce_payload_round_trips_through_parse() {
    let p = announce_payload("net-1", "192.168.1.4:7400");
    assert_eq!(p, "kern:net-1:192.168.1.4:7400");
    let (nid, addr) = parse_announce(&p).unwrap();
    assert_eq!(nid, "net-1");
    assert_eq!(addr, "192.168.1.4:7400");
}

#[test]
fn announced_peer_skips_other_networks_and_self() {
    let p = announce_payload("net-1", "10.0.0.2:7400");
    assert_eq!(announced_peer(&p, "net-1", "10.0.0.1:7400"), Some("10.0.0.2:7400".to_string()));
    assert_eq!(announced_peer(&p, "net-2", "10.0.0.1:7400"), None);
    assert_eq!(announced_peer(&p, "net-1", "10.0.0.2:7400"), None);
    assert_eq!(announced_peer("garbage", "net-1", "10.0.0.1:7400"), None);
}

#[test]
fn max_per_window_zero_admits_everything() {
    let mut rc = RateClipper::new(0, Duration::from_secs(1));
    for _ in 0..100 {
        assert!(rc.admit_now("p"));
    }
    assert_eq!(rc.dropped_count(), 0, "the zero-cap fast path never drops");
}

#[test]
fn admits_up_to_cap_then_drops_within_window() {
    let mut rc = RateClipper::new(2, Duration::from_secs(10));
    let t0 = Instant::now();
    assert!(rc.admit_at("p", t0));
    assert!(rc.admit_at("p", t0));
    assert!(!rc.admit_at("p", t0), "third call within the window is dropped");
    assert_eq!(rc.dropped_count(), 1);
}

#[test]
fn capacity_is_restored_after_the_window_elapses() {
    let mut rc = RateClipper::new(1, Duration::from_secs(5));
    let t0 = Instant::now();
    assert!(rc.admit_at("p", t0));
    assert!(!rc.admit_at("p", t0), "over cap in the same window");
    // Advance past the window: the bucket resets.
    let t1 = t0 + Duration::from_secs(6);
    assert!(rc.admit_at("p", t1), "capacity restored after the window elapses");
}

#[test]
fn buckets_are_independent_per_peer() {
    let mut rc = RateClipper::new(1, Duration::from_secs(10));
    let t0 = Instant::now();
    assert!(rc.admit_at("a", t0));
    assert!(rc.admit_at("b", t0), "a different peer has its own bucket");
    assert!(!rc.admit_at("a", t0), "peer a is now over its cap");
}

#[test]
fn admit_after_follows_the_elapsed_time_it_is_given() {
    let mut rc = RateClipper::new(1, Duration::from_nanos(100));
    let t0 = Instant::now();
    assert!(rc.admit_after("p", t0, 0));
    assert!(!rc.admit_after("p", t0, 99), "inside the window");
    assert_eq!(rc.dropped_count(), 1);
    assert!(rc.admit_after("p", t0, 100), "a window of exactly its length has run out");
    assert!(!rc.admit_after("p", t0, 5));
    assert_eq!(rc.dropped_count(), 2);
}

#[test]
fn drop_counter_equals_the_refused_calls() {
    let mut rc = RateClipper::new(2, Duration::from_secs(60));
    let t0 = Instant::now();
    let mut refused = 0u64;
    for i in 0..25 {
        let peer = if i % 3 == 0 { "a" } else { "b" };
        if !rc.admit_at(peer, t0) {
            refused += 1;
        }
    }
    assert_eq!(refused, 21);
    assert_eq!(rc.dropped_count(), refused);
}

#[test]
fn a_reset_window_caps_again_from_its_new_start() {
    let mut rc = RateClipper::new(1, Duration::from_secs(5));
    let t0 = Instant::now();
    assert!(rc.admit_at("p", t0));
    let t1 = t0 + Duration::from_secs(6);
    assert!(rc.admit_at("p", t1), "the old window ran out");
    assert!(!rc.admit_at("p", t1 + Duration::from_secs(1)), "the new window opened at t1 and caps again");
    assert!(rc.admit_at("p", t1 + Duration::from_secs(5)), "and runs out five seconds after t1");
}

#[test]
fn crdt_target_codes_round_trip() {
    for code in 0u8..=255 {
        if let Some(t) = CrdtTarget::from_u8(code) {
            assert_eq!(t.code(), code);
        }
    }
    assert!(CrdtTarget::from_u8(200).is_none());
}

use kern::gossip::rate::{RateLimiter, GOSSIP_QUESTION_PER_MIN, GOSSIP_RATE_MAX_ORIGINS};

fn limiter() -> RateLimiter {
    RateLimiter::new(3, Duration::from_secs(60), 4)
}

#[test]
fn a_peer_spends_its_budget_then_is_refused() {
    let mut r = limiter();
    let t0 = Instant::now();
    for i in 0..3 {
        assert!(r.allow_at("peer-a", t0), "probe {i} is inside the budget");
    }
    assert!(!r.allow_at("peer-a", t0), "the fourth probe is refused");
    assert_eq!(r.refused(), 1, "and counted");
}

#[test]
fn the_budget_refills_on_the_next_window() {
    let mut r = limiter();
    let t0 = Instant::now();
    for _ in 0..3 {
        r.allow_at("peer-a", t0);
    }
    assert!(!r.allow_at("peer-a", t0));
    let later = t0 + Duration::from_secs(61);
    assert!(r.allow_at("peer-a", later), "a slow prober is a legitimate peer, not an attacker");
}

#[test]
fn one_peers_flood_does_not_spend_anothers_budget() {
    let mut r = limiter();
    let t0 = Instant::now();
    for _ in 0..5 {
        r.allow_at("noisy", t0);
    }
    assert!(r.allow_at("quiet", t0), "budgets are per origin, or one peer silences the mesh");
}

#[test]
fn the_table_stays_bounded_under_spoofed_origins() {
    let mut r = limiter();
    let t0 = Instant::now();
    for i in 0..500 {
        r.allow_at(&format!("spoofed-{i}"), t0);
    }
    assert!(r.origins() <= 4, "origins are attacker-chosen, so the table is a memory target: {}", r.origins());
}

#[test]
fn an_expired_bucket_is_reclaimed_before_anything_live_is_evicted() {
    let mut r = limiter();
    let t0 = Instant::now();
    for i in 0..4 {
        r.allow_at(&format!("old-{i}"), t0);
    }
    let later = t0 + Duration::from_secs(61);
    assert!(r.allow_at("fresh", later));
    assert!(r.count_of("fresh").is_some() && r.origins() <= 4, "the stale buckets were free to reclaim");
    assert_eq!(r.count_of("old-0"), None);
}

#[test]
fn a_full_table_of_live_origins_evicts_the_oldest() {
    let mut r = limiter();
    let t0 = Instant::now();
    for i in 0..4 {
        r.allow_at(&format!("p{i}"), t0 + Duration::from_secs(i));
    }
    assert!(r.allow_at("late", t0 + Duration::from_secs(10)));
    assert_eq!(r.count_of("p0"), None, "the oldest window goes first");
    assert_eq!(r.count_of("p1"), Some(1));
    assert_eq!(r.count_of("late"), Some(1));
    assert_eq!(r.origins(), 4);
}

#[test]
fn zero_budget_refuses_everything_and_defaults_hold() {
    let mut r = RateLimiter::new(0, Duration::from_secs(60), 2);
    assert!(!r.allow("x"));
    assert!(!r.allow("x"));
    assert_eq!(r.refused(), 2);
    assert_eq!(GOSSIP_QUESTION_PER_MIN, 30);
    assert_eq!(GOSSIP_RATE_MAX_ORIGINS, 1024);
}

use kern::gossip::ledger::{live_addr, Index, Ledger};

fn ledger() -> Ledger {
    Ledger::new(Duration::from_secs(600), Duration::from_secs(300))
}

#[test]
fn routing_put_then_lookup_round_trips() {
    let mut l = ledger();
    assert_eq!(l.lookup_routing("k1"), None, "unknown kern -> None");
    l.put_routing("k1", "127.0.0.1:7400");
    assert_eq!(l.lookup_routing("k1"), Some("127.0.0.1:7400".to_string()));
}

#[test]
fn thought_put_then_lookup_round_trips() {
    let mut l = ledger();
    l.put_thought("t1", "127.0.0.1:7401");
    assert_eq!(l.lookup_thought("t1"), Some("127.0.0.1:7401".to_string()));
    assert_eq!(l.lookup_thought("missing"), None);
}

#[test]
fn live_addr_returns_addr_before_expiry_and_none_after() {
    let base = Instant::now();
    let expires = base + Duration::from_secs(10);
    assert_eq!(live_addr("peer", expires, base), Some("peer".to_string()));
    assert_eq!(live_addr("peer", expires, base + Duration::from_secs(20)), None);
}

#[test]
fn eviction_holds_map_at_capacity() {
    let mut l = ledger();
    l.set_max_entries(2);
    l.put_routing("a", "1");
    l.put_routing("b", "2");
    l.put_routing("c", "3");

    let live = ["a", "b", "c"].iter().filter(|k| l.lookup_routing(k).is_some()).count();
    assert_eq!(live, 2, "cap=2 holds at most two entries");
    // "a" inserted first -> soonest expiry (lexicographic tie-break on equal Instant).
    assert_eq!(l.lookup_routing("a"), None, "soonest-expiring entry is evicted");
    assert_eq!(l.lookup_routing("b"), Some("2".to_string()));
    assert_eq!(l.lookup_routing("c"), Some("3".to_string()));
}

#[test]
fn overwriting_a_key_does_not_evict_another_entry() {
    let mut l = ledger();
    l.set_max_entries(2);
    l.put_routing("a", "1");
    l.put_routing("b", "2");
    l.put_routing("a", "1b");
    assert_eq!(l.lookup_routing("b"), Some("2".to_string()), "overwrite must not evict b");
    assert_eq!(l.lookup_routing("a"), Some("1b".to_string()), "a updated in place");
}

#[test]
fn set_max_entries_floors_at_one() {
    let mut l = ledger();
    l.set_max_entries(0);
    assert_eq!(l.cap(), 1, "cap is floored at 1 so inserts can still land");
}

#[test]
fn index_evicts_by_expiry_then_key() {
    let t0 = Instant::now();
    let mut ix = Index::new();
    ix.insert("z".to_string(), "1".to_string(), t0 + Duration::from_secs(5), 2);
    ix.insert("y".to_string(), "2".to_string(), t0 + Duration::from_secs(5), 2);
    ix.insert("x".to_string(), "3".to_string(), t0 + Duration::from_secs(9), 2);
    assert_eq!(ix.len(), 2);
    assert_eq!(ix.lookup("y", t0), None, "equal expiry: the smaller key goes first");
    assert_eq!(ix.lookup("z", t0), Some("1".to_string()));
    assert_eq!(ix.lookup("z", t0 + Duration::from_secs(6)), None, "expired");
    ix.insert("w".to_string(), "4".to_string(), t0, 0);
    assert_eq!(ix.len(), 1, "a zero cap still takes the new key");
}

use kern::gossip::seen::SeenSet;

const SEEN_TTL: Duration = Duration::from_secs(60);
const SEEN_CAP: usize = 256;

fn seen_set() -> SeenSet {
    SeenSet::new(SEEN_CAP, SEEN_TTL)
}

#[test]
fn first_sight_is_new_repeat_is_seen() {
    let mut s = seen_set();
    let t0 = Instant::now();
    assert!(!s.add_and_check_at("a", t0), "first sight is new");
    assert!(s.add_and_check_at("a", t0), "repeat within TTL is suppressed");
}

#[test]
fn distinct_ids_are_each_new() {
    let mut s = seen_set();
    let t0 = Instant::now();
    assert!(!s.add_and_check_at("a", t0));
    assert!(!s.add_and_check_at("b", t0));
    assert!(!s.add_and_check_at("c", t0));
}

#[test]
fn entry_expires_after_ttl() {
    let mut s = seen_set();
    let t0 = Instant::now();
    assert!(!s.add_and_check_at("a", t0));
    assert!(s.add_and_check_at("a", t0 + SEEN_TTL - Duration::from_millis(1)));
    let past = t0 + SEEN_TTL + Duration::from_secs(1);
    assert!(!s.add_and_check_at("a", past));
    assert!(s.add_and_check_at("a", past), "re-recorded after expiry");
}

#[test]
fn expired_entries_are_reclaimed_not_accumulated() {
    let mut s = seen_set();
    let t0 = Instant::now();
    for i in 0..1000 {
        let now = t0 + Duration::from_secs(i);
        s.add_and_check_at(&format!("id{i}"), now);
    }
    let live = s.len();
    assert!(live <= (SEEN_TTL.as_secs() as usize) + 2, "expired entries must be reclaimed, got {live} live");
}

#[test]
fn count_is_bounded_under_flood_recent_id_survives() {
    let mut s = seen_set();
    let t0 = Instant::now();
    for i in 0..(SEEN_CAP + 500) {
        s.add_and_check_at(&format!("f{i}"), t0);
    }
    assert!(s.len() <= SEEN_CAP, "count must stay bounded");
    let last = format!("f{}", SEEN_CAP + 499);
    assert!(s.add_and_check_at(&last, t0), "recent id must survive the flood");
}

#[test]
fn reinsert_after_expiry_gets_a_fresh_ttl_and_leaves_no_stale_dupe() {
    let mut s = seen_set();
    let t0 = Instant::now();
    assert!(!s.add_and_check_at("a", t0), "first sight");
    let past = t0 + SEEN_TTL + Duration::from_secs(1);
    assert!(!s.add_and_check_at("a", past), "expired id is treated as new again");
    let near = past + SEEN_TTL - Duration::from_millis(1);
    assert!(s.add_and_check_at("a", near), "re-inserted id carries a fresh TTL");
    assert_eq!(s.len(), 1, "one live entry for the single id");
    assert_eq!(s.len_order(), s.len(), "order and live lengths agree (no stale dupes)");
}

#[test]
fn a_zero_cap_still_keeps_the_latest_id() {
    let mut s = SeenSet::new(0, SEEN_TTL);
    let t0 = Instant::now();
    assert!(!s.add_and_check_at("a", t0));
    assert!(!s.add_and_check_at("b", t0));
    assert!(s.add_and_check_at("b", t0));
    assert!(!s.add_and_check_at("a", t0), "a was evicted to make room");
    assert_eq!(s.len(), 1);
}

#[test]
fn allow_after_follows_the_ages_it_is_given() {
    let mut r = RateLimiter::new(1, Duration::from_secs(60), 2);
    let t0 = Instant::now();
    assert!(r.allow_after("a", t0, &[]), "a new origin opens its window");
    assert!(!r.allow_after("a", t0, &[5]), "the budget of one is spent");
    assert_eq!(r.refused(), 1);
    assert!(r.allow_after("a", t0, &[60_000_000_000]), "a window of exactly its length has run out");
    assert_eq!(r.count_of("a"), Some(1));
}

#[test]
fn a_full_table_drops_expired_buckets_before_the_oldest() {
    let mut r = RateLimiter::new(5, Duration::from_secs(60), 2);
    let t0 = Instant::now();
    assert!(r.allow_after("a", t0, &[]));
    assert!(r.allow_after("b", t0, &[1]));
    // Both windows still open: the one opened longest ago (a, age 20) goes.
    assert!(r.allow_after("c", t0, &[20, 10]));
    assert_eq!(r.count_of("a"), None);
    assert_eq!(r.count_of("b"), Some(1));
    assert_eq!(r.count_of("c"), Some(1));
    // Table is [b, c]; b's window ran out, so b goes even though c is older.
    assert!(r.allow_after("d", t0, &[70_000_000_000, 80]));
    assert_eq!(r.count_of("b"), None);
    assert_eq!(r.count_of("c"), Some(1));
    assert_eq!(r.count_of("d"), Some(1));
    assert_eq!(r.origins(), 2);
}

#[test]
fn seen_after_follows_the_clock_answers_it_is_given() {
    let mut s = SeenSet::new(2, SEEN_TTL);
    let t0 = Instant::now();
    let dl = Some(t0 + SEEN_TTL);
    assert!(!s.add_and_check_after("a", dl, &[]), "first sight is recorded");
    assert!(s.add_and_check_after("a", dl, &[false]), "a live record is a repeat");
    assert!(!s.add_and_check_after("b", dl, &[true]), "a's record ran out and goes first");
    assert_eq!(s.len_order(), 1);
    assert!(!s.add_and_check_after("a", dl, &[false]));
    assert!(!s.add_and_check_after("c", dl, &[false, false]), "full: the oldest (b) goes");
    assert_eq!(s.len_order(), 2);
    assert!(!s.add_and_check_after("b", dl, &[false, false]), "b was evicted");
    assert!(!s.add_and_check_after("x", None, &[false, false]), "an unrepresentable deadline records nothing");
    assert_eq!(s.len_order(), 2);
    assert!(s.add_and_check_after("b", dl, &[false, false]));
}
