use kern::mcp::tools_admin::{graviton_not_found, graviton_step, GravitonStep};
use kern::mcp::tools_mutate::{acl_scope, ingest_route, source_kind, IngestRoute, SourceKind};
use kern::mcp::tools_query::{query_step, result_limit, thought_not_found, QueryStep};

fn query_reason(s: QueryStep) -> String {
    match s {
        QueryStep::Reject(m) => m,
        _ => panic!("expected a refusal"),
    }
}

fn graviton_reason(s: GravitonStep) -> String {
    match s {
        GravitonStep::Reject(m) => m,
        _ => panic!("expected a refusal"),
    }
}

#[test]
fn query_by_id_ignores_the_text() {
    match query_step("t-1", "anything", false) {
        QueryStep::Lookup(id) => assert_eq!(id, "t-1"),
        _ => panic!("an id is looked up"),
    }
}

#[test]
fn query_needs_text_or_id_then_a_client() {
    assert_eq!(query_reason(query_step("", "", true)), "either text or id is required");
    assert_eq!(query_reason(query_step("", "q", false)), "no embed client configured");
    assert!(matches!(query_step("", "q", true), QueryStep::Search));
    assert_eq!(thought_not_found("t-9"), "thought not found: t-9");
}

#[test]
fn query_limit_defaults_to_the_seed_count() {
    assert_eq!(result_limit(0, 12), 12);
    assert_eq!(result_limit(5, 12), 5);
}

#[test]
fn graviton_actions() {
    assert!(matches!(graviton_step("", "", "", false), GravitonStep::List));
    assert!(matches!(graviton_step("list", "x", "", false), GravitonStep::List));
    assert_eq!(graviton_reason(graviton_step("add", "g", "", true)), "add requires name and text");
    assert_eq!(graviton_reason(graviton_step("add", "", "t", true)), "add requires name and text");
    assert_eq!(graviton_reason(graviton_step("add", "g", "t", false)), "no embed client configured");
    assert!(matches!(graviton_step("add", "g", "t", true), GravitonStep::Add));
    assert_eq!(graviton_reason(graviton_step("rm", "", "", true)), "remove requires name");
    assert!(matches!(graviton_step("rm", "g", "", false), GravitonStep::Remove));
    assert!(matches!(graviton_step("remove", "g", "", false), GravitonStep::Remove));
    assert_eq!(graviton_reason(graviton_step("rename", "g", "t", true)), "action must be add, list, or remove");
    assert_eq!(graviton_not_found("g"), "graviton not found: g");
}

#[test]
fn ingest_sources_by_name() {
    assert!(matches!(source_kind(""), SourceKind::Inline));
    assert!(matches!(source_kind("inline"), SourceKind::Inline));
    assert!(matches!(source_kind("file"), SourceKind::File));
    assert!(matches!(source_kind("session"), SourceKind::Session));
    assert!(matches!(source_kind("agent"), SourceKind::Agent));
    match source_kind("jira") {
        SourceKind::Ticket(s) => assert_eq!(s, "jira"),
        _ => panic!("an unknown source is a ticket system"),
    }
}

#[test]
fn ingest_scope_is_trimmed_and_never_blank() {
    assert_eq!(acl_scope(""), Ok(String::new()));
    assert_eq!(acl_scope("  team-a "), Ok("team-a".to_string()));
    assert_eq!(acl_scope("   "), Err("`scope` must not be blank".to_string()));
}

#[test]
fn ingest_routes() {
    assert!(matches!(ingest_route("", true, true, "http://r"), IngestRoute::Reject(m) if m == "text is required"));
    assert!(matches!(ingest_route("t", true, true, "http://r"), IngestRoute::Sync));
    assert!(matches!(ingest_route("t", false, true, "http://r"), IngestRoute::DirectIntake));
    assert!(matches!(ingest_route("t", false, true, ""), IngestRoute::Queue));
    assert!(matches!(ingest_route("t", false, false, "http://r"), IngestRoute::Queue));
}
