use kern::boot::worker_thread_count;
use kern::hub::node::strip_deleted_marker;
use kern::ingest::config::{
    deadline_from, review_for, valid_until_from_retention, ReviewPolicy, ReviewState,
};
use kern::ingest::file_watcher::strip_file_uri;
use kern::ingest::intake::{all_succeeded, intake_failure_message};
use kern::ingest::outcome::{FailureReport, Outcome, OutcomeStatus};
use kern::ingest::worker::{classify_status, finalize_doc_identity, outcome_log_severity};
use kern::mcp::tools_query::parse_time_filter;
use std::time::{Duration, SystemTime};

#[test]
fn deleted_marker_is_stripped_only_as_suffix() {
    assert_eq!(strip_deleted_marker("/x/kern (deleted)"), "/x/kern", "rebuilt binary path recovers");
    assert_eq!(strip_deleted_marker("/x/kern"), "/x/kern");
    assert_eq!(
        strip_deleted_marker("/x/kern (deleted)/sub"),
        "/x/kern (deleted)/sub",
        "marker inside the path is a real directory name, not a marker"
    );
}

#[test]
fn review_for_keys_on_the_scheme_and_defaults_to_active() {
    // A `Source::File` reports the scheme "file"; a `Source::Inline`, "inline".
    let file = "file";
    let inline = "inline";
    let policy = ReviewPolicy::from_pairs(vec![("file".to_string(), ReviewState::Pending)]);
    assert_eq!(review_for(&policy, file), ReviewState::Pending);
    assert_eq!(
        review_for(&policy, inline),
        ReviewState::Active,
        "an unlisted scheme is active — the policy holds back only what it names"
    );
    assert_eq!(review_for(&ReviewPolicy::new(), file), ReviewState::Active, "an empty policy holds nothing back");
}

#[test]
fn review_policy_later_pairs_override_and_insert_replaces() {
    let mut p = ReviewPolicy::from_pairs(vec![
        ("file".to_string(), ReviewState::Pending),
        ("file".to_string(), ReviewState::Active),
        ("session".to_string(), ReviewState::Pending),
    ]);
    assert_eq!(review_for(&p, "file"), ReviewState::Active);
    assert_eq!(review_for(&p, "session"), ReviewState::Pending);
    p.insert("session".to_string(), ReviewState::Active);
    assert_eq!(p.get("session"), Some(ReviewState::Active));
    assert_eq!(p.get("ticket"), None);
    assert!(!p.is_empty());
    assert!(ReviewPolicy::new().is_empty());
    assert_eq!(ReviewState::default(), ReviewState::Active);
}

#[test]
fn retention_becomes_an_absolute_deadline_one_hour_out() {
    let before = SystemTime::now();
    let got = valid_until_from_retention(3600)
        .expect("an hour is representable")
        .expect("a non-zero retention yields a deadline");
    let after = SystemTime::now();
    assert!(
        got >= before + Duration::from_secs(3600) && got <= after + Duration::from_secs(3600),
        "valid_until is now + 1h"
    );
}

#[test]
fn retention_that_overflows_the_clock_is_rejected_loudly() {
    assert!(valid_until_from_retention(u64::MAX).unwrap_err().contains("overflows the clock"));
}

#[test]
fn zero_retention_is_no_deadline() {
    assert_eq!(valid_until_from_retention(0), Ok(None));
    assert_eq!(deadline_from(0, None), Ok(None));
    assert_eq!(deadline_from(7, None), Err("retention_secs 7 overflows the clock".to_string()));
    let t = SystemTime::UNIX_EPOCH;
    assert_eq!(deadline_from(7, Some(t)), Ok(Some(t)));
}

#[test]
fn strip_file_uri_handles_windows_and_posix() {
    assert_eq!(strip_file_uri("file:///C:/foo/bar.rs"), "C:/foo/bar.rs");
    assert_eq!(strip_file_uri("file:///abs/posix.rs"), "abs/posix.rs");
    assert_eq!(strip_file_uri("file://host/p.rs"), "/p.rs");
    assert_eq!(strip_file_uri("file://host"), "", "bare authority with no path");
    assert_eq!(strip_file_uri("plain/path.rs"), "plain/path.rs");
}

#[test]
fn status_as_str_is_the_lowercase_label() {
    assert_eq!(OutcomeStatus::Committed.as_str(), "committed");
    assert_eq!(OutcomeStatus::Partial.as_str(), "partial");
    assert_eq!(OutcomeStatus::Failed.as_str(), "failed");
    assert_eq!(OutcomeStatus::Deduped.as_str(), "deduped");
}

#[test]
fn failed_zeroes_every_counter_and_carries_the_failures() {
    let f = FailureReport::document_permanent("boom");
    let o = Outcome::failed("nothing processed", vec![f]);
    assert_eq!(o.status, OutcomeStatus::Failed);
    assert!(o.doc_id.is_empty(), "no document committed");
    assert_eq!(
        (o.total_chunks, o.embedded_chunks, o.failed_chunks, o.transient_failures, o.permanent_failures),
        (0, 0, 0, 0, 0),
        "all counters zero on a wholly-failed outcome"
    );
    assert_eq!(o.failures.len(), 1, "failure detail preserved");
    assert_eq!(o.message, "nothing processed");
}

#[test]
fn document_permanent_has_the_canonical_shape() {
    let f = FailureReport::document_permanent("lock poisoned");
    assert_eq!(f.scope, "document");
    assert_eq!(f.chunk_index, 0);
    assert_eq!(f.class, "permanent");
    assert_eq!(f.error, "lock poisoned");
}

#[test]
fn classify_status_maps_tallies_to_outcome() {
    assert_eq!(classify_status(3, 0), OutcomeStatus::Committed);
    assert_eq!(classify_status(2, 1), OutcomeStatus::Partial);
    assert_eq!(classify_status(0, 3), OutcomeStatus::Failed);
    assert_eq!(classify_status(0, 0), OutcomeStatus::Committed);
}

#[test]
fn document_permanent_failure_has_canonical_shape() {
    let f = FailureReport::document_permanent("graph lock poisoned");
    assert_eq!(f.scope, "document");
    assert_eq!(f.chunk_index, 0);
    assert_eq!(f.class, "permanent");
    assert_eq!(f.error, "graph lock poisoned");
}

fn outcome_with(status: OutcomeStatus) -> Outcome {
    Outcome {
        status,
        doc_id: "d".into(),
        total_chunks: 1,
        embedded_chunks: 1,
        failed_chunks: 0,
        transient_failures: 0,
        permanent_failures: 0,
        failures: Vec::new(),
        message: String::new(),
    }
}

#[test]
fn finalize_doc_identity_marks_dedup_and_keeps_surviving_id() {
    let (id, st) = finalize_doc_identity("hash-a", "existing-b".to_string(), OutcomeStatus::Committed);
    assert_eq!(id, "existing-b");
    assert_eq!(st, OutcomeStatus::Deduped);

    let (id, st) = finalize_doc_identity("hash-a", "hash-a".to_string(), OutcomeStatus::Committed);
    assert_eq!(id, "hash-a");
    assert_eq!(st, OutcomeStatus::Committed);

    let (_, st) = finalize_doc_identity("hash-a", "existing-b".to_string(), OutcomeStatus::Partial);
    assert_eq!(st, OutcomeStatus::Partial);
}

#[test]
fn outcome_log_severity_maps_status_to_level() {
    assert_eq!(outcome_log_severity(&outcome_with(OutcomeStatus::Committed)), "info");
    assert_eq!(outcome_log_severity(&outcome_with(OutcomeStatus::Deduped)), "info");
    assert_eq!(outcome_log_severity(&outcome_with(OutcomeStatus::Partial)), "warn");
    assert_eq!(outcome_log_severity(&outcome_with(OutcomeStatus::Failed)), "error");
}

#[test]
fn worker_count_honors_the_floor_of_four() {
    assert_eq!(worker_thread_count(None), 4, "detection failure -> floor");
    assert_eq!(worker_thread_count(Some(1)), 4, "1 core -> floor");
    assert_eq!(worker_thread_count(Some(2)), 4);
    assert_eq!(worker_thread_count(Some(4)), 4, "at the floor");
    assert_eq!(worker_thread_count(Some(8)), 8);
    assert_eq!(worker_thread_count(Some(64)), 64);
}

#[test]
fn empty_is_no_filter() {
    assert_eq!(parse_time_filter("since", "").unwrap(), None);
}

#[test]
fn valid_parses_to_some() {
    assert!(parse_time_filter("before", "2026-06-05T09:00:00Z").unwrap().is_some());
}

#[test]
fn nonempty_malformed_is_hard_error() {
    let e = parse_time_filter("valid_at", "20XX-06-05T09:00:00Z").unwrap_err();
    assert!(e.contains("valid_at"), "error names the field: {e}");
}

#[test]
fn a_delta_is_archived_only_when_every_claim_went_in() {
    assert!(all_succeeded(&[]));
    assert!(all_succeeded(&[true, true]));
    assert!(!all_succeeded(&[true, false, true]));
}

#[test]
fn intake_failure_message_names_status_and_first_failure() {
    let o = Outcome::failed("x", vec![FailureReport::document_permanent("boom")]);
    assert_eq!(intake_failure_message(&o), "status=failed document/permanent: boom");
    let bare = Outcome::failed("x", Vec::new());
    assert_eq!(intake_failure_message(&bare), "status=failed no failure detail reported");
}
