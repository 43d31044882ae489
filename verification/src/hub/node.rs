//! Spawning node daemons.
use vstd::prelude::*;
use crate::text::{chars_of, ends_with, has_suffix};

verus! {

/// The marker `/proc/self/exe` carries once the running binary was unlinked.
pub open spec fn deleted_marker() -> Seq<char> {
    " (deleted)"@
}

/// The executable path with a trailing ` (deleted)` marker removed; a marker
/// anywhere else is part of a real name and stays.
pub open spec fn without_deleted_marker(s: Seq<char>) -> Seq<char> {
    if has_suffix(s, deleted_marker()) {
        s.subrange(0, s.len() - deleted_marker().len())
    } else {
        s
    }
}

pub fn strip_deleted_marker(s: &str) -> (r: &str)
    ensures
        r@ == without_deleted_marker(s@),
{
    proof {
        reveal_strlit(" (deleted)");
    }
    let v = chars_of(s);
    let marker = chars_of(" (deleted)");
    if ends_with(v.as_slice(), marker.as_slice()) {
        s.substring_char(0, v.len() - marker.len())
    } else {
        s
    }
}

} // verus!
