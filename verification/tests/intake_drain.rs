use kern::ingest::distill::Claim;
use kern::ingest::intake::{after_distill, drain_decision, went_in, DrainStep, EntryRead};
use kern::ingest::outcome::{Outcome, OutcomeStatus};

fn leave_reason(step: DrainStep) -> String {
    match step {
        DrainStep::LeaveQueued(m) => m,
        _ => panic!("expected the file to stay queued"),
    }
}

#[test]
fn unreadable_file_stays_queued_with_its_reason() {
    let step = drain_decision(&EntryRead::Unreadable, true, true);
    assert_eq!(leave_reason(step), "unreadable (transient IO error); left queued for retry");
}

#[test]
fn binary_file_is_quarantined() {
    assert!(matches!(drain_decision(&EntryRead::Binary, true, true), DrainStep::Quarantine));
    assert!(matches!(drain_decision(&EntryRead::Binary, false, false), DrainStep::Quarantine));
}

#[test]
fn blank_file_is_done_at_once() {
    let blank = EntryRead::Text(" \n\t ".to_string());
    assert!(matches!(drain_decision(&blank, true, false), DrainStep::ArchiveDone));
    assert!(matches!(drain_decision(&EntryRead::Text(String::new()), false, true), DrainStep::ArchiveDone));
}

#[test]
fn non_transcript_text_is_a_document_and_needs_no_model() {
    let doc = EntryRead::Text("# notes".to_string());
    assert!(matches!(drain_decision(&doc, false, false), DrainStep::IngestDocument));
    assert!(matches!(drain_decision(&doc, false, true), DrainStep::IngestDocument));
}

#[test]
fn transcript_without_a_model_stays_queued() {
    let t = EntryRead::Text("user: hi".to_string());
    assert_eq!(
        leave_reason(drain_decision(&t, true, false)),
        "no [reason] endpoint configured — a .txt transcript cannot be distilled"
    );
}

#[test]
fn transcript_with_a_model_is_distilled() {
    let t = EntryRead::Text("user: hi".to_string());
    assert!(matches!(drain_decision(&t, true, true), DrainStep::Distill));
}

#[test]
fn distillation_that_gave_nothing_leaves_a_reason() {
    assert_eq!(
        after_distill(None),
        Err("the reason model returned no parseable claims (prose reply, or endpoint unreachable)".to_string())
    );
    let claim = Claim { text: "t".to_string(), kind: "fact".to_string(), valid_from: None, turns: vec![] };
    assert_eq!(
        after_distill(Some(("s".to_string(), vec![claim.clone()]))),
        Ok(("s".to_string(), vec![claim]))
    );
}

#[test]
fn only_a_failed_outcome_did_not_go_in() {
    let failed = Outcome::failed("boom", vec![]);
    assert!(!went_in(&failed));
    let mut done = Outcome::failed("", vec![]);
    done.status = OutcomeStatus::Committed;
    assert!(went_in(&done));
    done.status = OutcomeStatus::Deduped;
    assert!(went_in(&done));
}
