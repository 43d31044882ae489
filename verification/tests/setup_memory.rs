use kern::mcp::acl::{incident_edge, Endpoint};
use kern::mcp::tools_setup::{check, render_setup, SetupState};
use kern::memory_service::{MemoryEntry, MemoryService};
use kern::retrieval::expand::{materialize_chain, ChainNode, Interner, NO_PARENT};

fn state(gravitons: &[&str], thoughts: u64) -> SetupState {
    SetupState {
        gravitons: gravitons.iter().map(|s| s.to_string()).collect(),
        thoughts,
        claim_kinds: 0,
        intake_dir: ".kern/intake".into(),
        mcp_registered: true,
    }
}

#[test]
fn fresh_project_gets_the_seeding_step() {
    let text = render_setup(&state(&[], 0));
    assert!(text.contains("## Seed gravitons"));
    assert!(text.contains("[todo] gravitons seeded (none)"));
    assert!(text.contains("[todo] memory has content"));
}

#[test]
fn seeded_project_skips_the_seeding_step() {
    let text = render_setup(&state(&["decisions", "architecture"], 12));
    assert!(!text.contains("## Seed gravitons"));
    assert!(text.contains("[done] gravitons seeded (decisions, architecture)"));
    assert!(text.contains("[done] memory has content (12 thoughts)"));
}

#[test]
fn capture_and_verify_are_always_present() {
    for s in [state(&[], 0), state(&["a"], 5)] {
        let text = render_setup(&s);
        assert!(text.contains("## Wire capture into your host"));
        assert!(text.contains("## Verify"));
        assert!(text.contains(".kern/intake"), "intake dir must be inlined");
        assert!(text.contains("degrade"));
        assert!(text.contains("## Tune"), "preset tiers are offered");
    }
}

#[test]
fn setup_state_lines_carry_marks_and_counts() {
    let mut s = state(&["x"], 0);
    s.claim_kinds = 3;
    s.mcp_registered = false;
    let text = render_setup(&s);
    assert!(text.starts_with("# kern setup — instructions for the calling agent\n"));
    assert!(text.contains("- [todo] MCP registered for this project (.mcp.json)\n"));
    assert!(text.contains("- [done] claim kinds registered (3)\n"));
    assert!(text.contains("- [todo] memory has content (0 thoughts)\n\n"));
    assert!(text.contains("transcript to `.kern/intake/<timestamp>.txt`"));
    assert!(text.ends_with("cheap and reinforces it.\n"));
    assert_eq!(check(true), "[done]");
    assert_eq!(check(false), "[todo]");
}

#[test]
fn truncate_drops_newer_only() {
    let mut s = MemoryService::new();
    s.insert(MemoryEntry { ts_ms: 10, key: "a".into(), text: "x".into() });
    s.insert(MemoryEntry { ts_ms: 20, key: "b".into(), text: "y".into() });
    s.insert(MemoryEntry { ts_ms: 30, key: "c".into(), text: "z".into() });
    assert_eq!(s.truncate_after(20), 1);
    assert_eq!(s.len(), 2);
}

#[test]
fn insert_same_key_upserts_in_place() {
    // Upsert is intentional: re-inserting a key REPLACES, never appends.
    let mut s = MemoryService::new();
    s.insert(MemoryEntry { ts_ms: 10, key: "k".into(), text: "old".into() });
    s.insert(MemoryEntry { ts_ms: 20, key: "k".into(), text: "new".into() });

    assert_eq!(s.len(), 1, "same key overwrites rather than duplicating");
    let snap = s.snapshot();
    assert_eq!(snap.len(), 1);
    assert_eq!(snap[0].text, "new", "later insert wins");
    assert_eq!(snap[0].ts_ms, 20);
}

#[test]
fn snapshot_returns_every_entry() {
    let mut s = MemoryService::new();
    s.insert(MemoryEntry { ts_ms: 1, key: "a".into(), text: "x".into() });
    s.insert(MemoryEntry { ts_ms: 2, key: "b".into(), text: "y".into() });
    let mut keys: Vec<String> = s.snapshot().into_iter().map(|e| e.key).collect();
    keys.sort();
    assert_eq!(keys, vec!["a".to_string(), "b".to_string()]);
}

#[test]
fn truncate_twice_removes_nothing_more() {
    let mut s = MemoryService::new();
    assert!(s.is_empty());
    for (i, k) in ["a", "b", "c", "d"].iter().enumerate() {
        s.insert(MemoryEntry { ts_ms: i as u64 * 10, key: k.to_string(), text: String::new() });
    }
    assert_eq!(s.truncate_after(15), 2);
    assert_eq!(s.truncate_after(15), 0);
    assert_eq!(s.len(), 2);
    assert_eq!(s.truncate_after(0), 1);
    assert!(!s.is_empty());
}

#[test]
fn interner_gives_back_what_it_interned() {
    let mut it = Interner::new();
    let a = it.intern("alpha");
    let b = it.intern("beta");
    assert_eq!((a, b), (0, 1));
    assert_eq!(it.intern("alpha"), 0, "a seen name keeps its index");
    assert_eq!(it.len(), 2);
    assert_eq!(it.name(b), "beta");
    assert_eq!(it.name_rc(a), "alpha");
}

#[test]
fn materialize_chain_reads_the_path_from_its_seed() {
    let mut it = Interner::new();
    let s = it.intern("seed");
    let m = it.intern("mid");
    let e = it.intern("end");
    let arena = vec![
        ChainNode { ent: s, rid: "", parent: NO_PARENT },
        ChainNode { ent: m, rid: "r1", parent: 0 },
        ChainNode { ent: e, rid: "r2", parent: 1 },
    ];
    assert_eq!(materialize_chain(&arena, &it, 2), vec!["seed", "r1", "mid", "r2", "end"]);
    assert_eq!(materialize_chain(&arena, &it, 0), vec!["seed"]);
}

#[test]
fn incident_edge_reads_the_far_end() {
    let resolve = |id: &str| match id {
        "ok" => Endpoint::Admitted,
        "no" => Endpoint::Withheld,
        _ => Endpoint::Unresolved,
    };
    assert_eq!(incident_edge("me", "me", "ok", &resolve), Some(true));
    assert_eq!(incident_edge("me", "no", "me", &resolve), None);
    assert_eq!(incident_edge("me", "me", "gone", &resolve), Some(false));
}
