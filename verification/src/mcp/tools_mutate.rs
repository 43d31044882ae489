//! The `ingest` tool's request decisions: the source a request names, its
//! access scope, and which path the text takes into the graph.
use vstd::prelude::*;
use crate::text::{is_blank, is_blank_str, str_eq, trim, trim_str};

verus! {

/// The kind of source an `ingest` request names.
pub enum SourceKind {
    Inline,
    File,
    Session,
    Agent,
    /// Any other name is a ticket system of that name.
    Ticket(String),
}

/// The source kind a request's `source` names: none or `inline` is inline
/// text; `file`, `session` and `agent` name themselves; anything else is a
/// ticket system.
pub open spec fn source_named(source: Seq<char>, r: SourceKind) -> bool {
    if source.len() == 0 || source == "inline"@ {
        r is Inline
    } else if source == "file"@ {
        r is File
    } else if source == "session"@ {
        r is Session
    } else if source == "agent"@ {
        r is Agent
    } else {
        r matches SourceKind::Ticket(s) && s@ == source
    }
}

/// The source kind a request names (see `source_named`).
pub fn source_kind(source: &str) -> (r: SourceKind)
    ensures
        source_named(source@, r),
{
    if source.unicode_len() == 0 || str_eq(source, "inline") {
        SourceKind::Inline
    } else if str_eq(source, "file") {
        SourceKind::File
    } else if str_eq(source, "session") {
        SourceKind::Session
    } else if str_eq(source, "agent") {
        SourceKind::Agent
    } else {
        SourceKind::Ticket(String::from_str(source))
    }
}

/// The access scope a request carries, trimmed; a scope given as blanks only
/// is refused.
pub fn acl_scope(scope: &str) -> (r: Result<String, String>)
    ensures
        scope@.len() > 0 && is_blank(scope@) ==> (r matches Err(m) && m@ == "`scope` must not be blank"@),
        !(scope@.len() > 0 && is_blank(scope@)) ==> (r matches Ok(s) && s@ == trim(scope@)),
{
    if scope.unicode_len() > 0 && is_blank_str(scope) {
        Err(String::from_str("`scope` must not be blank"))
    } else {
        Ok(trim_str(scope))
    }
}

/// Which path an `ingest` request's text takes: refused, ingested while the
/// caller waits, written to the durable direct intake, or queued in memory.
pub enum IngestRoute {
    Reject(String),
    Sync,
    DirectIntake,
    Queue,
}

/// How an `ingest` request is routed: text is required; a synchronous request
/// is ingested at once; otherwise the text is persisted to the direct intake
/// before the acknowledgement, but only when the intake drain runs (it is
/// enabled and a reason model is configured), and queued in memory when not.
pub open spec fn ingest_routed(text: Seq<char>, sync: bool, intake_enabled: bool, reason_url: Seq<char>, r: IngestRoute) -> bool {
    if text.len() == 0 {
        r matches IngestRoute::Reject(m) && m@ == "text is required"@
    } else if sync {
        r is Sync
    } else if intake_enabled && reason_url.len() > 0 {
        r is DirectIntake
    } else {
        r is Queue
    }
}

/// Routes an `ingest` request (see `ingest_routed`).
pub fn ingest_route(text: &str, sync: bool, intake_enabled: bool, reason_url: &str) -> (r: IngestRoute)
    ensures
        ingest_routed(text@, sync, intake_enabled, reason_url@, r),
{
    if text.unicode_len() == 0 {
        IngestRoute::Reject(String::from_str("text is required"))
    } else if sync {
        IngestRoute::Sync
    } else if intake_enabled && reason_url.unicode_len() > 0 {
        IngestRoute::DirectIntake
    } else {
        IngestRoute::Queue
    }
}

} // verus!
