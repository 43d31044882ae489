//! Who an edge may be shown to. An edge's text quotes both endpoint texts, so
//! it belongs to the endpoints: every surface that renders an entity's edges
//! re-derives the same verdict, and it lives here once.
use vstd::prelude::*;
use crate::text::str_eq;

verus! {

/// What an edge endpoint's ACL says about serving the edge that quotes it.
/// "Did not resolve" is not "does not exist": a row that is not resident may
/// still be alive with its ACL intact.
#[derive(Debug, Clone, Copy, PartialEq, Eq, Structural)]
pub enum Endpoint {
    /// Resolved, and the caller's admission test cleared it.
    Admitted,
    /// Resolved, and the caller's admission test refused it.
    Withheld,
    /// Did not resolve.
    Unresolved,
}

/// The end of an edge from `from` to `to` that is not `owner`: `to` when the
/// owner is the edge's `from`, `from` otherwise.
pub open spec fn far_end(owner: Seq<char>, from: Seq<char>, to: Seq<char>) -> Seq<char> {
    if from == owner {
        to
    } else {
        from
    }
}

/// The verdict for an edge given its far endpoint's: `None` drops it,
/// `Some(false)` renders it with its text withheld, `Some(true)` renders it
/// whole. An unresolved endpoint redacts rather than drops, so a dangling
/// endpoint does not hide an admitted entity's own structure.
pub open spec fn edge_verdict(e: Endpoint) -> Option<bool> {
    match e {
        Endpoint::Withheld => None,
        Endpoint::Unresolved => Some(false),
        Endpoint::Admitted => Some(true),
    }
}

/// The verdict for one edge from `from` to `to`, incident to `owner`, where
/// `endpoint` resolves an entity id and applies the caller's admission rule.
pub fn incident_edge<F: Fn(&str) -> Endpoint>(owner: &str, from: &str, to: &str, endpoint: &F) -> (r:
    Option<bool>)
    requires
        forall|id: &str| #[trigger] call_requires(*endpoint, (id,)),
    ensures
        exists|far: &str, e: Endpoint|
            #![trigger call_ensures(*endpoint, (far,), e)]
            far@ == far_end(owner@, from@, to@) && call_ensures(*endpoint, (far,), e) && r
                == edge_verdict(e),
{
    let far = if str_eq(from, owner) {
        to
    } else {
        from
    };
    let e = endpoint(far);
    match e {
        Endpoint::Withheld => None,
        Endpoint::Unresolved => Some(false),
        Endpoint::Admitted => Some(true),
    }
}

} // verus!
