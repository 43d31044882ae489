//! The terminal result of an ingest call.
use vstd::prelude::*;

verus! {

#[derive(Debug, Clone, Copy, PartialEq, Eq, Structural)]
pub enum OutcomeStatus {
    Committed,
    Partial,
    /// Merged into an existing entity: the acked content-hash `doc_id` never
    /// enters the graph. In-memory only, never persisted.
    Deduped,
    Failed,
}

/// The lowercase label of each status.
pub open spec fn status_label(s: OutcomeStatus) -> Seq<char> {
    match s {
        OutcomeStatus::Committed => "committed"@,
        OutcomeStatus::Partial => "partial"@,
        OutcomeStatus::Deduped => "deduped"@,
        OutcomeStatus::Failed => "failed"@,
    }
}

impl OutcomeStatus {
    pub fn as_str(&self) -> (r: &'static str)
        ensures
            r@ == status_label(*self),
    {
        match self {
            OutcomeStatus::Committed => "committed",
            OutcomeStatus::Partial => "partial",
            OutcomeStatus::Deduped => "deduped",
            OutcomeStatus::Failed => "failed",
        }
    }
}

/// A chunk- or document-scope ingest failure. `class` is `"permanent"` or
/// `"transient"` (retryable); `chunk_index` is `0` for document scope.
#[derive(Debug, Clone)]
pub struct FailureReport {
    pub scope: String,
    pub chunk_index: usize,
    pub class: String,
    pub error: String,
}

impl FailureReport {
    /// The one shape for document-level errors.
    pub fn document_permanent(error: &str) -> (r: Self)
        ensures
            r.scope@ == "document"@,
            r.chunk_index == 0,
            r.class@ == "permanent"@,
            r.error@ == error@,
    {
        FailureReport {
            scope: String::from_str("document"),
            chunk_index: 0,
            class: String::from_str("permanent"),
            error: String::from_str(error),
        }
    }
}

/// The terminal result of an ingest call.
#[derive(Debug, Clone)]
pub struct Outcome {
    pub status: OutcomeStatus,
    pub doc_id: String,
    pub total_chunks: usize,
    pub embedded_chunks: usize,
    pub failed_chunks: usize,
    pub transient_failures: usize,
    pub permanent_failures: usize,
    pub failures: Vec<FailureReport>,
    pub message: String,
}

impl Outcome {
    /// A wholly-failed outcome (all counters zero) for enqueue/dispatch failures.
    pub fn failed(message: &str, failures: Vec<FailureReport>) -> (r: Self)
        ensures
            r.status == OutcomeStatus::Failed,
            r.doc_id@.len() == 0,
            r.total_chunks == 0,
            r.embedded_chunks == 0,
            r.failed_chunks == 0,
            r.transient_failures == 0,
            r.permanent_failures == 0,
            r.failures@ == failures@,
            r.message@ == message@,
    {
        Outcome {
            status: OutcomeStatus::Failed,
            doc_id: String::new(),
            total_chunks: 0,
            embedded_chunks: 0,
            failed_chunks: 0,
            transient_failures: 0,
            permanent_failures: 0,
            failures,
            message: String::from_str(message),
        }
    }
}

/// The four statuses carry four distinct labels.
pub proof fn lemma_status_labels_distinct(a: OutcomeStatus, b: OutcomeStatus)
    ensures
        status_label(a) == status_label(b) ==> a == b,
{
    reveal_strlit("committed");
    reveal_strlit("partial");
    reveal_strlit("deduped");
    reveal_strlit("failed");
    if status_label(a) == status_label(b) && a != b {
        assert(status_label(a)[0] == status_label(b)[0]);
        assert(status_label(a).len() == status_label(b).len());
        assert(status_label(a)[1] == status_label(b)[1]);
    }
}

} // verus!
