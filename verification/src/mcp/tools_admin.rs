//! The `graviton` tool's request decisions.
use vstd::prelude::*;
use crate::text::str_eq;

verus! {

/// What a `graviton` request does: list the gravitons, add or remove the
/// named one, or nothing (and why).
pub enum GravitonStep {
    List,
    Add,
    Remove,
    Reject(String),
}

/// How a `graviton` request is decided: an empty action lists; `add` needs a
/// name, a text and an embedding client; `remove` (or `rm`) needs a name; any
/// other action is refused.
pub open spec fn graviton_decided(
    action: Seq<char>,
    name: Seq<char>,
    text: Seq<char>,
    has_embed_client: bool,
    r: GravitonStep,
) -> bool {
    if action.len() == 0 || action == "list"@ {
        r is List
    } else if action == "add"@ {
        if name.len() == 0 || text.len() == 0 {
            r matches GravitonStep::Reject(m) && m@ == "add requires name and text"@
        } else if !has_embed_client {
            r matches GravitonStep::Reject(m) && m@ == "no embed client configured"@
        } else {
            r is Add
        }
    } else if action == "remove"@ || action == "rm"@ {
        if name.len() == 0 {
            r matches GravitonStep::Reject(m) && m@ == "remove requires name"@
        } else {
            r is Remove
        }
    } else {
        r matches GravitonStep::Reject(m) && m@ == "action must be add, list, or remove"@
    }
}

/// Decides what a `graviton` request does (see `graviton_decided`).
pub fn graviton_step(action: &str, name: &str, text: &str, has_embed_client: bool) -> (r: GravitonStep)
    ensures
        graviton_decided(action@, name@, text@, has_embed_client, r),
{
    if action.unicode_len() == 0 || str_eq(action, "list") {
        GravitonStep::List
    } else if str_eq(action, "add") {
        if name.unicode_len() == 0 || text.unicode_len() == 0 {
            GravitonStep::Reject(String::from_str("add requires name and text"))
        } else if !has_embed_client {
            GravitonStep::Reject(String::from_str("no embed client configured"))
        } else {
            GravitonStep::Add
        }
    } else if str_eq(action, "remove") || str_eq(action, "rm") {
        if name.unicode_len() == 0 {
            GravitonStep::Reject(String::from_str("remove requires name"))
        } else {
            GravitonStep::Remove
        }
    } else {
        GravitonStep::Reject(String::from_str("action must be add, list, or remove"))
    }
}

/// The error for a removal that names no graviton.
pub fn graviton_not_found(name: &str) -> (r: String)
    ensures
        r@ == "graviton not found: "@ + name@,
{
    let mut m = String::from_str("graviton not found: ");
    m.append(name);
    m
}

} // verus!
