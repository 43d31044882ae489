//! Seeding mode: which signal a query is seeded by.
use vstd::prelude::*;
use crate::text::{chars_of, lower_eq, lower_equals};

verus! {

#[derive(Debug, Clone, Copy, PartialEq, Eq, Structural)]
pub enum Mode {
    Content,
    Reason,
    Hybrid,
}

/// The mode a request names, case-insensitively; anything unknown is hybrid.
/// (Neither target holds a letter that a non-ASCII character lowercases
/// into, so ASCII case folding decides exactly what full Unicode lowercasing
/// would.)
pub open spec fn mode_named(s: Seq<char>) -> Mode {
    if lower_eq(s, "content"@) {
        Mode::Content
    } else if lower_eq(s, "reason"@) {
        Mode::Reason
    } else {
        Mode::Hybrid
    }
}

impl Mode {
    pub fn parse(s: &str) -> (r: Self)
        ensures
            r == mode_named(s@),
    {
        let v = chars_of(s);
        let content = chars_of("content");
        let reason = chars_of("reason");
        if lower_equals(v.as_slice(), content.as_slice()) {
            Mode::Content
        } else if lower_equals(v.as_slice(), reason.as_slice()) {
            Mode::Reason
        } else {
            Mode::Hybrid
        }
    }
}

} // verus!
