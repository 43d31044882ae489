//! Result ordering options and the delivery cap.
use vstd::prelude::*;
use crate::text::{chars_of, lower_eq, lower_equals};

verus! {

#[derive(Debug, Clone, Copy, PartialEq, Eq, Structural)]
pub enum SortField {
    Score,
    Date,
    Access,
    Confidence,
}

impl Default for SortField {
    fn default() -> (r: Self)
        ensures
            r == SortField::Score,
    {
        SortField::Score
    }
}

/// The sort field a request names, case-insensitively; anything unknown sorts
/// by score. (The targets are ASCII words that no non-ASCII character
/// lowercases into, so ASCII case folding decides exactly what full Unicode
/// lowercasing would.)
pub open spec fn sort_field_named(s: Seq<char>) -> SortField {
    if lower_eq(s, "date"@) {
        SortField::Date
    } else if lower_eq(s, "access"@) {
        SortField::Access
    } else if lower_eq(s, "confidence"@) {
        SortField::Confidence
    } else {
        SortField::Score
    }
}

impl SortField {
    pub fn parse(s: &str) -> (r: Self)
        ensures
            r == sort_field_named(s@),
    {
        let v = chars_of(s);
        let date = chars_of("date");
        let access = chars_of("access");
        let confidence = chars_of("confidence");
        if lower_equals(v.as_slice(), date.as_slice()) {
            SortField::Date
        } else if lower_equals(v.as_slice(), access.as_slice()) {
            SortField::Access
        } else if lower_equals(v.as_slice(), confidence.as_slice()) {
            SortField::Confidence
        } else {
            SortField::Score
        }
    }
}

/// How many results a query delivers: the delivery cap, or with MMR on the
/// larger of it and MMR's pool, so that MMR's pool is not cut before it runs.
pub fn delivery_cap(mmr_enabled: bool, mmr_pool_size: usize, max_deliver_results: usize) -> (r: usize)
    ensures
        r == if mmr_enabled && mmr_pool_size > max_deliver_results { mmr_pool_size } else { max_deliver_results },
{
    if mmr_enabled && mmr_pool_size > max_deliver_results {
        mmr_pool_size
    } else {
        max_deliver_results
    }
}

} // verus!
