//! Result diversification.
use vstd::prelude::*;
use crate::text::{chars_of, find, find_at, lemma_find_from, string_range};

verus! {

/// The section a chunk's section string belongs to: everything before its
/// first `#chunk` marker, or all of it when it has none.
pub open spec fn section_of(section: Seq<char>) -> Seq<char> {
    match find(section, "#chunk"@) {
        Some(i) => section.subrange(0, i),
        None => section,
    }
}

pub fn section_key(section: &str) -> (r: String)
    ensures
        r@ == section_of(section@),
{
    let v = chars_of(section);
    let marker = chars_of("#chunk");
    let found = find_at(v.as_slice(), marker.as_slice(), 0);
    proof {
        lemma_find_from(v@, marker@, 0);
    }
    match found {
        Some(i) => string_range(v.as_slice(), 0, i),
        None => String::from_str(section),
    }
}

} // verus!
