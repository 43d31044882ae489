//! Gossip wire types. Variant order is on-wire: reordering is a breaking
//! change.
use vstd::prelude::*;

verus! {

#[derive(Debug, Clone, Copy, PartialEq, Eq, Structural)]
pub enum GossipKind {
    Sphere,
    Question,
    Pulse,
    PeerExchange,
    Fetch,
    Delta,
    EntitySync,
}

#[derive(Debug, Clone)]
pub struct PeerExchangePayload {
    pub peers: Vec<String>,
}

#[derive(Debug, Clone)]
pub struct FetchPayload {
    pub resource: String,
    pub id: String,
}

#[derive(Debug, Clone)]
pub struct FetchResultPayload {
    pub found: bool,
    pub body: Vec<u8>,
}

#[derive(Debug, Clone, Copy, PartialEq, Eq, Structural)]
pub enum CrdtTarget {
    ThoughtAccessCount,
    ReasonTraversalCount,
    ReasonScore,
    ValidUntil,
    Statements,
}

/// The wire byte of each CRDT target: its declaration index.
pub open spec fn target_code(t: CrdtTarget) -> u8 {
    match t {
        CrdtTarget::ThoughtAccessCount => 0,
        CrdtTarget::ReasonTraversalCount => 1,
        CrdtTarget::ReasonScore => 2,
        CrdtTarget::ValidUntil => 3,
        CrdtTarget::Statements => 4,
    }
}

impl CrdtTarget {
    /// The target a wire byte names; bytes past the last target name none.
    pub fn from_u8(v: u8) -> (r: Option<Self>)
        ensures
            r matches Some(t) ==> target_code(t) == v,
            r is None <==> v > 4,
    {
        match v {
            0 => Some(CrdtTarget::ThoughtAccessCount),
            1 => Some(CrdtTarget::ReasonTraversalCount),
            2 => Some(CrdtTarget::ReasonScore),
            3 => Some(CrdtTarget::ValidUntil),
            4 => Some(CrdtTarget::Statements),
            _ => None,
        }
    }

    /// The wire byte of this target.
    pub fn code(self) -> (v: u8)
        ensures
            v == target_code(self),
    {
        match self {
            CrdtTarget::ThoughtAccessCount => 0,
            CrdtTarget::ReasonTraversalCount => 1,
            CrdtTarget::ReasonScore => 2,
            CrdtTarget::ValidUntil => 3,
            CrdtTarget::Statements => 4,
        }
    }
}

/// Every target survives the trip to its wire byte and back.
pub proof fn lemma_target_code_round_trip(t: CrdtTarget)
    ensures
        target_code(t) <= 4,
        forall|u: CrdtTarget| target_code(u) == target_code(t) ==> u == t,
{
}

/// A CRDT delta: `value` is the sender's absolute replica-slot total, not an
/// increment; `lamport` and `producer` break last-writer-wins ties.
#[derive(Debug, Clone)]
pub struct CrdtDeltaPayload {
    pub kern_id: String,
    pub object_id: String,
    pub target: CrdtTarget,
    pub replica: String,
    pub value: u64,
    pub lamport: u64,
    pub producer: String,
    /// Encoded last-writer-wins value for `ReasonScore` / `ValidUntil`.
    pub lww_value: Vec<u8>,
    /// Encoded OR-set delta for `Statements`.
    pub orset_delta: Vec<u8>,
}

} // verus!
