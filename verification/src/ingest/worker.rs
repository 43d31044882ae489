//! The ingest worker's decisions about a finished job.
use vstd::prelude::*;
use crate::ingest::outcome::{Outcome, OutcomeStatus};

verus! {

/// The status a job earns from its chunk tallies: everything embedded is
/// committed, some is partial, none (with failures) is failed.
pub open spec fn status_for(embedded_chunks: nat, failed_chunks: nat) -> OutcomeStatus {
    if failed_chunks == 0 {
        OutcomeStatus::Committed
    } else if embedded_chunks > 0 {
        OutcomeStatus::Partial
    } else {
        OutcomeStatus::Failed
    }
}

pub fn classify_status(embedded_chunks: usize, failed_chunks: usize) -> (r: OutcomeStatus)
    ensures
        r == status_for(embedded_chunks as nat, failed_chunks as nat),
{
    if failed_chunks == 0 {
        OutcomeStatus::Committed
    } else if embedded_chunks > 0 {
        OutcomeStatus::Partial
    } else {
        OutcomeStatus::Failed
    }
}

/// After a merge the acked content hash is not in the graph: the result
/// carries the surviving id, and a committed job whose survivor is another
/// entity is reported as deduplicated.
pub fn finalize_doc_identity(content_id: &str, surviving_id: String, status: OutcomeStatus) -> (r: (String, OutcomeStatus))
    ensures
        r.0@ == surviving_id@,
        r.1 == (if surviving_id@ != content_id@ && status == OutcomeStatus::Committed {
            OutcomeStatus::Deduped
        } else {
            status
        }),
{
    let deduped = !crate::text::str_eq(surviving_id.as_str(), content_id);
    let status = if deduped && status == OutcomeStatus::Committed {
        OutcomeStatus::Deduped
    } else {
        status
    };
    (surviving_id, status)
}

/// The log level an outcome is reported at.
pub open spec fn severity_label(s: OutcomeStatus) -> Seq<char> {
    match s {
        OutcomeStatus::Failed => "error"@,
        OutcomeStatus::Partial => "warn"@,
        OutcomeStatus::Committed | OutcomeStatus::Deduped => "info"@,
    }
}

pub fn outcome_log_severity(o: &Outcome) -> (r: &'static str)
    ensures
        r@ == severity_label(o.status),
{
    match o.status {
        OutcomeStatus::Failed => "error",
        OutcomeStatus::Partial => "warn",
        OutcomeStatus::Committed | OutcomeStatus::Deduped => "info",
    }
}

} // verus!
