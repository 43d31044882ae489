//! The intake queue's decisions: what happens to each queued file, what a
//! dropped transcript distills to, when a delta is done, and what is recorded
//! beside one that is stuck.
use vstd::prelude::*;
use std::time::SystemTime;
use crate::ingest::distill::{distill, distill_result, views, Claim};
use crate::ingest::outcome::{status_label, Outcome, OutcomeStatus};
use crate::text::{is_blank, is_blank_str};

verus! {

/// What reading an intake file gave: its text, or a sign that it is not text
/// and can never be ingested.
pub enum Text {
    Content(String),
    Binary,
}

/// Distills a dropped transcript read as `text` into claims, tagged with the
/// file's `stem`. A binary file gives nothing; so does a transcript the model
/// gave no usable output for, which is left in the queue for a retry.
pub fn claims_of_text<F: Fn(&str) -> String>(
    text: Text,
    stem: &str,
    extra_kinds: &[String],
    llm: &F,
    now: SystemTime,
) -> (r: Option<(String, Vec<Claim>)>)
    requires
        forall|q: &str| #[trigger] call_requires(*llm, (q,)),
    ensures
        text is Binary ==> r is None,
        text matches Text::Content(t) ==> exists|d: Option<Vec<Claim>>|
            #[trigger] distill_result(t@, views(extra_kinds@), *llm, now, d) && match d {
                Some(v) => r matches Some(p) && p.0@ == stem@ && p.1 == v,
                None => r is None,
            },
{
    let t = match text {
        Text::Content(t) => t,
        Text::Binary => return None,
    };
    let d = distill(t.as_str(), extra_kinds, llm, now);
    match d {
        Some(v) => Some((String::from_str(stem), v)),
        None => None,
    }
}

/// What reading a queued file gave: a transient failure (tried again on the
/// next drain), bytes that are not text, or the text.
pub enum EntryRead {
    Unreadable,
    Binary,
    Text(String),
}

/// What the drain does with a queued file: leave it queued with the reason
/// recorded beside it, quarantine it, archive it as done, ingest it whole as
/// a document, or distill it as a session transcript.
pub enum DrainStep {
    LeaveQueued(String),
    Quarantine,
    ArchiveDone,
    IngestDocument,
    Distill,
}

/// The reason recorded beside a file that could not be read this time.
pub open spec fn unreadable_note() -> Seq<char> {
    "unreadable (transient IO error); left queued for retry"@
}

/// The reason recorded beside a transcript with no model to distill it.
pub open spec fn no_reason_model_note() -> Seq<char> {
    "no [reason] endpoint configured — a .txt transcript cannot be distilled"@
}

/// The reason recorded beside a transcript whose distillation gave nothing.
pub open spec fn no_claims_note() -> Seq<char> {
    "the reason model returned no parseable claims (prose reply, or endpoint unreachable)"@
}

/// The intake contract: anything readable as text gets in. A `.txt` file is
/// a session transcript and is distilled, which needs a reason model; any
/// other text is a document and is stored whole. Blank text is done at once;
/// binary is quarantined; a read that failed is retried later.
pub open spec fn drain_decided(read: EntryRead, is_txt: bool, has_reason_llm: bool, r: DrainStep) -> bool {
    match read {
        EntryRead::Unreadable => r matches DrainStep::LeaveQueued(m) && m@ == unreadable_note(),
        EntryRead::Binary => r is Quarantine,
        EntryRead::Text(t) => if is_blank(t@) {
            r is ArchiveDone
        } else if !is_txt {
            r is IngestDocument
        } else if !has_reason_llm {
            r matches DrainStep::LeaveQueued(m) && m@ == no_reason_model_note()
        } else {
            r is Distill
        },
    }
}

/// Decides what the drain does with a queued file, given what reading it
/// gave, whether its extension is `txt`, and whether a reason model is
/// configured (see `drain_decided`).
pub fn drain_decision(read: &EntryRead, is_txt: bool, has_reason_llm: bool) -> (r: DrainStep)
    ensures
        drain_decided(*read, is_txt, has_reason_llm, r),
{
    match read {
        EntryRead::Unreadable => DrainStep::LeaveQueued(
            String::from_str("unreadable (transient IO error); left queued for retry"),
        ),
        EntryRead::Binary => DrainStep::Quarantine,
        EntryRead::Text(t) => {
            if is_blank_str(t.as_str()) {
                DrainStep::ArchiveDone
            } else if !is_txt {
                DrainStep::IngestDocument
            } else if !has_reason_llm {
                DrainStep::LeaveQueued(
                    String::from_str("no [reason] endpoint configured — a .txt transcript cannot be distilled"),
                )
            } else {
                DrainStep::Distill
            }
        },
    }
}

/// What follows a transcript's distillation: its stem and claims to ingest,
/// or, when it gave nothing, the reason recorded beside the queued file.
pub fn after_distill(got: Option<(String, Vec<Claim>)>) -> (r: Result<(String, Vec<Claim>), String>)
    ensures
        match got {
            Some(p) => r == Ok::<(String, Vec<Claim>), String>(p),
            None => r matches Err(m) && m@ == no_claims_note(),
        },
{
    match got {
        Some(p) => Ok(p),
        None => Err(String::from_str("the reason model returned no parseable claims (prose reply, or endpoint unreachable)")),
    }
}

/// Whether an ingest went in: any outcome but a failure.
pub fn went_in(outcome: &Outcome) -> (r: bool)
    ensures
        r == !(outcome.status is Failed),
{
    match outcome.status {
        OutcomeStatus::Failed => false,
        _ => true,
    }
}

/// Whether every claim of a delta went in, in which case the delta is
/// archived; otherwise it stays queued for a retry.
pub fn all_succeeded(results: &[bool]) -> (r: bool)
    ensures
        r == (forall|i: int| 0 <= i < results@.len() ==> results@[i]),
{
    let n = results.len();
    let mut i: usize = 0;
    while i < n
        invariant
            n == results@.len(),
            i <= n,
            forall|j: int| 0 <= j < i ==> results@[j],
        decreases n - i,
    {
        if !results[i] {
            return false;
        }
        i = i + 1;
    }
    true
}

/// The note recorded beside a delta whose ingest failed: the outcome's
/// status, then its first failure as `scope/class: error`.
pub open spec fn failure_note(o: Outcome) -> Seq<char> {
    "status="@ + status_label(o.status) + " "@ + if o.failures@.len() > 0 {
        o.failures@[0].scope@ + "/"@ + o.failures@[0].class@ + ": "@ + o.failures@[0].error@
    } else {
        "no failure detail reported"@
    }
}

/// The note recorded beside a delta whose ingest failed (see `failure_note`).
pub fn intake_failure_message(outcome: &Outcome) -> (r: String)
    ensures
        r@ == failure_note(*outcome),
{
    let mut m = String::from_str("status=");
    m.append(outcome.status.as_str());
    m.append(" ");
    if outcome.failures.len() > 0 {
        let f = &outcome.failures[0];
        m.append(f.scope.as_str());
        m.append("/");
        m.append(f.class.as_str());
        m.append(": ");
        m.append(f.error.as_str());
    } else {
        m.append("no failure detail reported");
    }
    assert(m@ =~= failure_note(*outcome));
    m
}

} // verus!
