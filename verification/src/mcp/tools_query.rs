//! The `query` tool's request decisions and argument parsing.
use vstd::prelude::*;
use std::time::SystemTime;
use crate::time::{offset_of_time, offset_secs, parse_rfc3339, rfc3339_value};

verus! {

/// The error a malformed time filter is reported with; it names the field.
pub open spec fn time_filter_error(field: Seq<char>, value: Seq<char>) -> Seq<char> {
    "invalid `"@ + field + "` timestamp: "@ + value
}

/// An empty value is no filter; anything else must be an RFC 3339 timestamp,
/// and a malformed one is an error naming the field.
pub fn parse_time_filter(field: &str, value: &str) -> (r: Result<Option<SystemTime>, String>)
    ensures
        value@.len() == 0 <==> r == Ok::<Option<SystemTime>, String>(None),
        r matches Ok(Some(t)) ==> rfc3339_value(value@) == Some(offset_secs(offset_of_time(t))),
        value@.len() > 0 && rfc3339_value(value@) is None ==> r is Err,
        r matches Err(e) ==> e@ == time_filter_error(field@, value@) && value@.len() > 0,
{
    if value.is_empty() {
        return Ok(None);
    }
    match parse_rfc3339(value) {
        Ok(t) => Ok(Some(t)),
        Err(()) => {
            let mut e = String::from_str("invalid `");
            e.append(field);
            e.append("` timestamp: ");
            e.append(value);
            assert(e@ =~= time_filter_error(field@, value@));
            Err(e)
        },
    }
}

/// What a `query` request asks for: the thought with a given id, a search,
/// or nothing it can be served with (and why).
pub enum QueryStep {
    Lookup(String),
    Reject(String),
    Search,
}

/// How a `query` request is served: by id when one is given (text is then
/// ignored); otherwise a search over `text`, which needs text and an embedding
/// client.
pub open spec fn query_decided(id: Seq<char>, text: Seq<char>, has_embed_client: bool, r: QueryStep) -> bool {
    if id.len() > 0 {
        r matches QueryStep::Lookup(i) && i@ == id
    } else if text.len() == 0 {
        r matches QueryStep::Reject(m) && m@ == "either text or id is required"@
    } else if !has_embed_client {
        r matches QueryStep::Reject(m) && m@ == "no embed client configured"@
    } else {
        r is Search
    }
}

/// Decides how a `query` request is served (see `query_decided`).
pub fn query_step(id: &str, text: &str, has_embed_client: bool) -> (r: QueryStep)
    ensures
        query_decided(id@, text@, has_embed_client, r),
{
    if id.unicode_len() > 0 {
        return QueryStep::Lookup(String::from_str(id));
    }
    if text.unicode_len() == 0 {
        QueryStep::Reject(String::from_str("either text or id is required"))
    } else if !has_embed_client {
        QueryStep::Reject(String::from_str("no embed client configured"))
    } else {
        QueryStep::Search
    }
}

/// The error for an id that names no thought.
pub fn thought_not_found(id: &str) -> (r: String)
    ensures
        r@ == "thought not found: "@ + id@,
{
    let mut m = String::from_str("thought not found: ");
    m.append(id);
    m
}

/// How many results a search returns: the request's `k`, or the configured
/// seed count when it asks for none.
pub fn result_limit(k: usize, seed_k: usize) -> (r: usize)
    ensures
        r == if k == 0 { seed_k } else { k },
{
    if k == 0 {
        seed_k
    } else {
        k
    }
}

} // verus!
